//! Parsing of a textual problem instance: the first line holds the
//! capacity, and every following line holds one item as two integers,
//! weight then value, separated by whitespace. Any malformed line is a
//! fatal parse error that names the offending line.

use vstd::prelude::*;

verus! {

/// ASCII whitespace: tab, line feed, vertical tab, form feed, carriage
/// return, space.
pub open spec fn is_ws(b: u8) -> bool {
    b == 9 || b == 10 || b == 11 || b == 12 || b == 13 || b == 32
}

/// ASCII decimal digit.
pub open spec fn is_digit_byte(b: u8) -> bool {
    48 <= b <= 57
}

/// First position in `[i, j)` holding whitespace, or `j` if there is none.
pub open spec fn next_ws(s: Seq<u8>, i: int, j: int) -> int
    decreases j - i,
{
    if i >= j {
        j
    } else if is_ws(s[i]) {
        i
    } else {
        next_ws(s, i + 1, j)
    }
}

/// Position of the first non-whitespace byte in `[i, j)`, or `j`.
pub open spec fn trim_front(s: Seq<u8>, i: int, j: int) -> int
    decreases j - i,
{
    if i >= j {
        i
    } else if is_ws(s[i]) {
        trim_front(s, i + 1, j)
    } else {
        i
    }
}

/// One past the last non-whitespace byte in `[i, j)`, or `i`.
pub open spec fn trim_back(s: Seq<u8>, i: int, j: int) -> int
    decreases j - i,
{
    if j <= i {
        j
    } else if is_ws(s[j - 1]) {
        trim_back(s, i, j - 1)
    } else {
        j
    }
}

/// Position of the first line feed at or after `i`, or the end of the text.
pub open spec fn line_end(s: Seq<u8>, i: int) -> int
    decreases s.len() - i,
{
    if i < 0 || i >= s.len() {
        s.len() as int
    } else if s[i] == 10 {
        i
    } else {
        line_end(s, i + 1)
    }
}

pub proof fn lemma_next_ws_bounds(s: Seq<u8>, i: int, j: int)
    requires
        i <= j,
    ensures
        i <= next_ws(s, i, j) <= j,
    decreases j - i,
{
    if i < j && !is_ws(s[i]) {
        lemma_next_ws_bounds(s, i + 1, j);
    }
}

pub proof fn lemma_line_end_bounds(s: Seq<u8>, i: int)
    requires
        0 <= i <= s.len(),
    ensures
        i <= line_end(s, i) <= s.len(),
    decreases s.len() - i,
{
    if i < s.len() && s[i] != 10 {
        lemma_line_end_bounds(s, i + 1);
    }
}

/// The whitespace-separated tokens of `s` within `[i, j)`, in order, each as
/// the byte sequence of one maximal non-whitespace run.
pub open spec fn tokens_in(s: Seq<u8>, i: int, j: int) -> Seq<Seq<u8>>
    decreases j - i,
    via tokens_in_decreases
{
    if !(0 <= i && i < j && j <= s.len()) {
        Seq::empty()
    } else if is_ws(s[i]) {
        tokens_in(s, i + 1, j)
    } else {
        seq![s.subrange(i, next_ws(s, i, j))] + tokens_in(s, next_ws(s, i, j), j)
    }
}

#[via_fn]
proof fn tokens_in_decreases(s: Seq<u8>, i: int, j: int) {
    if 0 <= i && i < j && j <= s.len() && !is_ws(s[i]) {
        lemma_next_ws_bounds(s, i + 1, j);
    }
}

/// The lines of the text from position `i` on, as `(start, end)` index
/// pairs: lines are separated by line feeds, and a trailing line feed does
/// not open a further empty line.
pub open spec fn lines_from(s: Seq<u8>, i: int) -> Seq<(int, int)>
    decreases s.len() - i + 1,
    via lines_from_decreases
{
    if !(0 <= i < s.len()) {
        Seq::empty()
    } else {
        seq![(i, line_end(s, i))] + lines_from(s, line_end(s, i) + 1)
    }
}

#[via_fn]
proof fn lines_from_decreases(s: Seq<u8>, i: int) {
    if 0 <= i < s.len() {
        lemma_line_end_bounds(s, i);
    }
}

/// The lines of the whole text, as `(start, end)` index pairs.
pub open spec fn lines_of(t: Seq<u8>) -> Seq<(int, int)> {
    lines_from(t, 0)
}

/// Numeric value of a sequence of decimal digit bytes.
pub open spec fn digits_value(s: Seq<u8>) -> int
    decreases s.len(),
{
    if s.len() == 0 {
        0
    } else {
        digits_value(s.drop_last()) * 10 + (s.last() - 48)
    }
}

pub open spec fn all_digits(s: Seq<u8>) -> bool {
    forall|i: int| 0 <= i < s.len() ==> is_digit_byte(#[trigger] s[i])
}

/// The digit part of an integer token: everything after an optional leading
/// `+` or `-` sign.
pub open spec fn digits_of(s: Seq<u8>) -> Seq<u8> {
    if s.len() > 0 && (s[0] == 43 || s[0] == 45) {
        s.subrange(1, s.len() as int)
    } else {
        s
    }
}

/// The token is an optional sign followed by at least one decimal digit.
pub open spec fn is_int_token(s: Seq<u8>) -> bool {
    digits_of(s).len() > 0 && all_digits(digits_of(s))
}

/// Numeric value of an integer token.
pub open spec fn token_value(s: Seq<u8>) -> int {
    if s.len() > 0 && s[0] == 45 {
        -digits_value(digits_of(s))
    } else {
        digits_value(digits_of(s))
    }
}

/// The token is an integer token whose value fits in an `i32`.
pub open spec fn is_i32_token(s: Seq<u8>) -> bool {
    is_int_token(s) && -0x8000_0000 <= token_value(s) <= 0x7fff_ffff
}

/// A digit string has a non-negative value, and no prefix of it has a
/// greater value than the whole.
pub proof fn lemma_digits_value_prefix(s: Seq<u8>, k: int)
    requires
        all_digits(s),
        0 <= k <= s.len(),
    ensures
        0 <= digits_value(s.take(k)) <= digits_value(s),
    decreases s.len() - k,
{
    if k == s.len() {
        assert(s.take(k) =~= s);
        lemma_digits_value_nonneg(s);
    } else {
        assert(s.take(k + 1).drop_last() =~= s.take(k));
        assert(is_digit_byte(s[k]));
        lemma_digits_value_nonneg(s.take(k));
        lemma_digits_value_prefix(s, k + 1);
    }
}

pub proof fn lemma_digits_value_nonneg(s: Seq<u8>)
    requires
        all_digits(s),
    ensures
        digits_value(s) >= 0,
    decreases s.len(),
{
    if s.len() > 0 {
        assert(all_digits(s.drop_last()));
        lemma_digits_value_nonneg(s.drop_last());
    }
}

/// A scan that stopped at `e` found the first line feed (or the end).
proof fn lemma_line_end_at(s: Seq<u8>, i: int, e: int)
    requires
        0 <= i <= e <= s.len(),
        forall|j: int| i <= j < e ==> s[j] != 10,
        e == s.len() || s[e] == 10,
    ensures
        line_end(s, i) == e,
    decreases e - i,
{
    if i < e {
        lemma_line_end_at(s, i + 1, e);
    }
}

/// A scan that stopped at `e` found the first whitespace in `[i, j)` (or
/// reached `j`).
proof fn lemma_next_ws_at(s: Seq<u8>, i: int, e: int, j: int)
    requires
        0 <= i <= e <= j <= s.len(),
        forall|k: int| i <= k < e ==> !is_ws(s[k]),
        e == j || is_ws(s[e]),
    ensures
        next_ws(s, i, j) == e,
    decreases e - i,
{
    if i < e {
        lemma_next_ws_at(s, i + 1, e, j);
    }
}

/// Whether `b` is ASCII whitespace.
fn is_ws_byte(b: u8) -> (r: bool)
    ensures
        r == is_ws(b),
{
    b == 9 || b == 10 || b == 11 || b == 12 || b == 13 || b == 32
}

/// The index pairs, as `(int, int)`, of a vector of index pairs.
pub open spec fn ranges_view(v: Seq<(usize, usize)>) -> Seq<(int, int)> {
    v.map_values(|p: (usize, usize)| (p.0 as int, p.1 as int))
}

/// Splits the text into its lines, returned as `(start, end)` index pairs.
pub fn split_lines(text: &Vec<u8>) -> (r: Vec<(usize, usize)>)
    ensures
        ranges_view(r@) == lines_of(text@),
        forall|k: int|
            0 <= k < r@.len() ==> 0 <= #[trigger] r@[k].0 <= r@[k].1 <= text@.len(),
{
    let n = text.len();
    let mut r: Vec<(usize, usize)> = Vec::new();
    let mut pos: usize = 0;
    while pos < n
        invariant
            n == text@.len(),
            pos <= n,
            ranges_view(r@) + lines_from(text@, pos as int) == lines_of(text@),
            forall|k: int|
                0 <= k < r@.len() ==> 0 <= #[trigger] r@[k].0 <= r@[k].1 <= text@.len(),
        decreases n - pos,
    {
        let start = pos;
        let mut e = pos;
        while e < n && *(&text[e]) != 10
            invariant
                n == text@.len(),
                start <= e <= n,
                forall|j: int| start <= j < e ==> text@[j] != 10,
            decreases n - e,
        {
            e = e + 1;
        }
        proof {
            lemma_line_end_at(text@, start as int, e as int);
            assert(lines_from(text@, start as int) == seq![(start as int, e as int)]
                + lines_from(text@, e as int + 1));
        }
        r.push((start, e));
        proof {
            assert(ranges_view(r@) =~= ranges_view(r@.drop_last()) + seq![
                (start as int, e as int),
            ]);
        }
        if e < n {
            pos = e + 1;
        } else {
            pos = n;
            proof {
                assert(lines_from(text@, e as int + 1) =~= Seq::<(int, int)>::empty());
                assert(lines_from(text@, n as int) =~= Seq::<(int, int)>::empty());
            }
        }
        proof {
            assert(ranges_view(r@) + lines_from(text@, pos as int) =~= lines_of(text@));
        }
    }
    proof {
        assert(lines_from(text@, pos as int) =~= Seq::<(int, int)>::empty());
        assert(ranges_view(r@) =~= lines_of(text@));
    }
    r
}

/// Strips leading and trailing whitespace from the range `[from, to)`,
/// returning the trimmed range.
pub fn trim_range(text: &Vec<u8>, from: usize, to: usize) -> (r: (usize, usize))
    requires
        from <= to <= text@.len(),
    ensures
        from <= r.0 <= r.1 <= to,
        r.0 as int == trim_front(text@, from as int, to as int),
        r.1 as int == trim_back(text@, r.0 as int, to as int),
{
    let mut a = from;
    while a < to && is_ws_byte(text[a])
        invariant
            from <= a <= to <= text@.len(),
            trim_front(text@, from as int, to as int) == trim_front(text@, a as int, to as int),
        decreases to - a,
    {
        a = a + 1;
    }
    let mut b = to;
    while b > a && is_ws_byte(text[b - 1])
        invariant
            a <= b <= to <= text@.len(),
            trim_back(text@, a as int, to as int) == trim_back(text@, a as int, b as int),
        decreases b,
    {
        b = b - 1;
    }
    (a, b)
}

/// Parses the range `[from, to)` as a decimal integer token — an optional
/// `+` or `-` sign followed by at least one digit — returning its value when
/// it is well formed and fits in an `i32`.
pub fn parse_i32(text: &Vec<u8>, from: usize, to: usize) -> (r: Option<i32>)
    requires
        from <= to <= text@.len(),
    ensures
        r is Some <==> is_i32_token(text@.subrange(from as int, to as int)),
        r matches Some(v) ==> v as int == token_value(text@.subrange(from as int, to as int)),
{
    let ghost s = text@.subrange(from as int, to as int);
    if from == to {
        return None;
    }
    let first = text[from];
    let neg = first == 45;
    let ds = if first == 45 || first == 43 {
        from + 1
    } else {
        from
    };
    let ghost d = text@.subrange(ds as int, to as int);
    proof {
        assert(s[0] == text@[from as int]);
        assert(d =~= digits_of(s));
    }
    if ds == to {
        return None;
    }
    let mut acc: i64 = 0;
    let mut i = ds;
    while i < to
        invariant
            from <= ds <= i <= to <= text@.len(),
            s == text@.subrange(from as int, to as int),
            d == text@.subrange(ds as int, to as int),
            d == digits_of(s),
            s.len() > 0,
            neg <==> s[0] == 45,
            d.len() == to - ds,
            forall|j: int| 0 <= j < i - ds ==> is_digit_byte(#[trigger] d[j]),
            acc as int == digits_value(d.take(i - ds)),
            0 <= acc <= 0x8000_0000,
        decreases to - i,
    {
        let c = text[i];
        proof {
            assert(d[i - ds] == text@[i as int]);
        }
        if !(48 <= c && c <= 57) {
            proof {
                assert(!is_digit_byte(d[i - ds]));
                assert(!all_digits(d));
                assert(!is_int_token(s));
            }
            return None;
        }
        proof {
            let k = i - ds;
            assert(d.take(k + 1).drop_last() =~= d.take(k));
            assert(d.take(k + 1).last() == d[k]);
        }
        acc = acc * 10 + ((c - 48) as i64);
        if acc > 0x8000_0000 {
            proof {
                if is_int_token(s) {
                    lemma_digits_value_prefix(d, i + 1 - ds);
                }
            }
            return None;
        }
        i = i + 1;
    }
    proof {
        assert(d.take(to - ds) =~= d);
        assert(is_int_token(s));
    }
    if neg {
        let v = -acc;
        Some(v as i32)
    } else {
        if acc > 0x7fff_ffff {
            return None;
        }
        Some(acc as i32)
    }
}

/// The byte sequences that a vector of index pairs selects from the text.
pub open spec fn token_views(t: Seq<u8>, v: Seq<(usize, usize)>) -> Seq<Seq<u8>> {
    v.map_values(|p: (usize, usize)| t.subrange(p.0 as int, p.1 as int))
}

/// Splits the range `[from, to)` of the text into its whitespace-separated
/// tokens, returned as `(start, end)` index pairs.
pub fn split_ws_tokens(text: &Vec<u8>, from: usize, to: usize) -> (r: Vec<(usize, usize)>)
    requires
        from <= to <= text@.len(),
    ensures
        token_views(text@, r@) == tokens_in(text@, from as int, to as int),
        forall|k: int|
            0 <= k < r@.len() ==> from <= #[trigger] r@[k].0 <= r@[k].1 <= to,
{
    let mut r: Vec<(usize, usize)> = Vec::new();
    let mut pos = from;
    while pos < to
        invariant
            from <= pos <= to <= text@.len(),
            token_views(text@, r@) + tokens_in(text@, pos as int, to as int) == tokens_in(
                text@,
                from as int,
                to as int,
            ),
            forall|k: int|
                0 <= k < r@.len() ==> from <= #[trigger] r@[k].0 <= r@[k].1 <= to,
        decreases to - pos,
    {
        if is_ws_byte(text[pos]) {
            pos = pos + 1;
        } else {
            let start = pos;
            let mut e = pos;
            while e < to && !is_ws_byte(text[e])
                invariant
                    from <= start <= e <= to <= text@.len(),
                    forall|j: int| start <= j < e ==> !is_ws(text@[j]),
                decreases to - e,
            {
                e = e + 1;
            }
            proof {
                lemma_next_ws_at(text@, start as int, e as int, to as int);
                assert(tokens_in(text@, start as int, to as int) == seq![
                    text@.subrange(start as int, e as int),
                ] + tokens_in(text@, e as int, to as int));
            }
            r.push((start, e));
            proof {
                assert(token_views(text@, r@) =~= token_views(text@, r@.drop_last()) + seq![
                    text@.subrange(start as int, e as int),
                ]);
                assert(token_views(text@, r@) + tokens_in(text@, e as int, to as int)
                    =~= tokens_in(text@, from as int, to as int));
            }
            pos = e;
        }
    }
    proof {
        assert(tokens_in(text@, pos as int, to as int) =~= Seq::<Seq<u8>>::empty());
        assert(token_views(text@, r@) =~= tokens_in(text@, from as int, to as int));
    }
    r
}

/// Why a textual instance was rejected. `line` is the 1-based line of the
/// input text where parsing stopped.
#[derive(Clone, Copy, Debug, PartialEq, Eq, Structural)]
pub enum ParseError {
    /// The input holds no line at all, so there is no capacity to read.
    EmptyInput,
    /// The first line, trimmed, is not a well-formed `i32`.
    InvalidCapacity,
    /// The capacity is a well-formed integer but negative.
    NegativeCapacity,
    /// An item line holds a token that is not a well-formed `i32`.
    InvalidInteger { line: usize },
    /// An item line's tokens all parse, but there are not exactly two.
    WrongTokenCount { line: usize },
}

/// The capacity token: the first line of the text, trimmed of whitespace.
pub open spec fn cap_token(t: Seq<u8>) -> Seq<u8> {
    let l = lines_of(t)[0];
    let a = trim_front(t, l.0, l.1);
    let b = trim_back(t, a, l.1);
    t.subrange(a, b)
}

/// The whitespace-separated tokens of line `k` of the text.
pub open spec fn line_tokens(t: Seq<u8>, k: int) -> Seq<Seq<u8>> {
    let l = lines_of(t)[k];
    tokens_in(t, l.0, l.1)
}

/// Every token of line `k` is a well-formed `i32`.
pub open spec fn line_tokens_are_i32(t: Seq<u8>, k: int) -> bool {
    forall|j: int| 0 <= j < line_tokens(t, k).len() ==> is_i32_token(#[trigger] line_tokens(t, k)[j])
}

/// Line `k` is a well-formed item line: exactly two tokens, both `i32`.
pub open spec fn item_line_ok(t: Seq<u8>, k: int) -> bool {
    line_tokens_are_i32(t, k) && line_tokens(t, k).len() == 2
}

/// Weight written on item line `k` of the text.
pub open spec fn item_weight(t: Seq<u8>, k: int) -> int {
    token_value(line_tokens(t, k)[0])
}

/// Value written on item line `k` of the text.
pub open spec fn item_value(t: Seq<u8>, k: int) -> int {
    token_value(line_tokens(t, k)[1])
}

/// The whole text is a well-formed instance: a first line holding a
/// non-negative `i32` capacity, and one well-formed item line per further
/// line.
pub open spec fn instance_ok(t: Seq<u8>) -> bool {
    &&& lines_of(t).len() >= 1
    &&& is_i32_token(cap_token(t))
    &&& token_value(cap_token(t)) >= 0
    &&& forall|k: int| 1 <= k < lines_of(t).len() ==> #[trigger] item_line_ok(t, k)
}

/// Parses a textual instance: the capacity from the first line, then one
/// `weight value` item per further line, in the order that fixes each item's
/// bit position. Returns the first defect otherwise, naming its line.
pub fn parse_instance(text: &Vec<u8>) -> (r: Result<(i32, Vec<(i32, i32)>), ParseError>)
    ensures
        r is Ok <==> instance_ok(text@),
        r matches Ok(out) ==> {
            &&& out.0 as int == token_value(cap_token(text@))
            &&& out.1@.len() == lines_of(text@).len() - 1
            &&& forall|k: int|
                0 <= k < out.1@.len() ==> (#[trigger] out.1@[k]).0 as int == item_weight(
                    text@,
                    k + 1,
                ) && out.1@[k].1 as int == item_value(text@, k + 1)
        },
        r == Err::<(i32, Vec<(i32, i32)>), ParseError>(ParseError::EmptyInput) <==> text@.len()
            == 0,
        r == Err::<(i32, Vec<(i32, i32)>), ParseError>(ParseError::InvalidCapacity) <==> (
        text@.len() > 0 && !is_i32_token(cap_token(text@))),
        r == Err::<(i32, Vec<(i32, i32)>), ParseError>(ParseError::NegativeCapacity) <==> (
        text@.len() > 0 && is_i32_token(cap_token(text@)) && token_value(cap_token(text@)) < 0),
        r matches Err(ParseError::InvalidInteger { line }) ==> {
            &&& 1 <= line - 1 < lines_of(text@).len()
            &&& forall|j: int| 1 <= j < line - 1 ==> #[trigger] item_line_ok(text@, j)
            &&& !line_tokens_are_i32(text@, line - 1)
        },
        r matches Err(ParseError::WrongTokenCount { line }) ==> {
            &&& 1 <= line - 1 < lines_of(text@).len()
            &&& forall|j: int| 1 <= j < line - 1 ==> #[trigger] item_line_ok(text@, j)
            &&& line_tokens_are_i32(text@, line - 1)
            &&& line_tokens(text@, line - 1).len() != 2
        },
{
    let lines = split_lines(text);
    if lines.len() == 0 {
        proof {
            assert(text@.len() == 0);
        }
        return Err(ParseError::EmptyInput);
    }
    proof {
        assert(lines_of(text@).len() > 0);
        assert(text@.len() > 0);
        assert(ranges_view(lines@)[0] == lines_of(text@)[0]);
    }
    let l0 = lines[0];
    let (a, b) = trim_range(text, l0.0, l0.1);
    proof {
        assert(cap_token(text@) =~= text@.subrange(a as int, b as int));
    }
    let cap = match parse_i32(text, a, b) {
        None => {
            return Err(ParseError::InvalidCapacity);
        },
        Some(c) => c,
    };
    if cap < 0 {
        return Err(ParseError::NegativeCapacity);
    }
    let mut items: Vec<(i32, i32)> = Vec::new();
    let mut k: usize = 1;
    while k < lines.len()
        invariant
            1 <= k <= lines@.len(),
            ranges_view(lines@) == lines_of(text@),
            forall|kk: int|
                0 <= kk < lines@.len() ==> 0 <= #[trigger] lines@[kk].0 <= lines@[kk].1
                    <= text@.len(),
            text@.len() > 0,
            is_i32_token(cap_token(text@)),
            cap as int == token_value(cap_token(text@)),
            cap >= 0,
            items@.len() == k - 1,
            forall|j: int| 1 <= j < k ==> #[trigger] item_line_ok(text@, j),
            forall|j: int|
                0 <= j < k - 1 ==> (#[trigger] items@[j]).0 as int == item_weight(text@, j + 1)
                    && items@[j].1 as int == item_value(text@, j + 1),
        decreases lines@.len() - k,
    {
        let lk = lines[k];
        let line_no = k + 1;
        proof {
            assert(ranges_view(lines@)[k as int] == lines_of(text@)[k as int]);
        }
        let toks = split_ws_tokens(text, lk.0, lk.1);
        proof {
            assert(token_views(text@, toks@) == line_tokens(text@, k as int));
        }
        let mut vals: Vec<i32> = Vec::new();
        let mut j: usize = 0;
        while j < toks.len()
            invariant
                0 <= j <= toks@.len(),
                1 <= k < lines@.len(),
                line_no == k + 1,
                ranges_view(lines@) == lines_of(text@),
                text@.len() > 0,
                is_i32_token(cap_token(text@)),
                token_value(cap_token(text@)) >= 0,
                forall|jj: int|
                    0 <= jj < toks@.len() ==> 0 <= #[trigger] toks@[jj].0 <= toks@[jj].1
                        <= text@.len(),
                token_views(text@, toks@) == line_tokens(text@, k as int),
                vals@.len() == j,
                forall|jj: int|
                    0 <= jj < j ==> is_i32_token(#[trigger] line_tokens(text@, k as int)[jj]),
                forall|jj: int|
                    0 <= jj < j ==> (#[trigger] vals@[jj]) as int == token_value(
                        line_tokens(text@, k as int)[jj],
                    ),
                forall|jjj: int| 1 <= jjj < k ==> #[trigger] item_line_ok(text@, jjj),
            decreases toks@.len() - j,
        {
            let t = toks[j];
            proof {
                assert(token_views(text@, toks@)[j as int] == text@.subrange(
                    t.0 as int,
                    t.1 as int,
                ));
            }
            match parse_i32(text, t.0, t.1) {
                None => {
                    proof {
                        assert(!is_i32_token(line_tokens(text@, k as int)[j as int]));
                        assert(!line_tokens_are_i32(text@, k as int));
                        assert(!item_line_ok(text@, k as int));
                        assert(!instance_ok(text@));
                    }
                    return Err(ParseError::InvalidInteger { line: line_no });
                },
                Some(v) => {
                    vals.push(v);
                },
            }
            j = j + 1;
        }
        if vals.len() != 2 {
            proof {
                assert(line_tokens_are_i32(text@, k as int));
                assert(line_tokens(text@, k as int).len() == toks@.len());
                assert(!item_line_ok(text@, k as int));
                assert(!instance_ok(text@));
            }
            return Err(ParseError::WrongTokenCount { line: line_no });
        }
        let w = vals[0];
        let v = vals[1];
        items.push((w, v));
        proof {
            assert(item_line_ok(text@, k as int));
        }
        k = k + 1;
    }
    Ok((cap, items))
}

} // verus!
