//! Parsing of position lists such as `1,3-5` into zero-based half-open ranges.
use std::ops::Range;
use vstd::prelude::*;

use crate::text::{decimal_text, push_decimal};

verus! {

/// An ASCII decimal digit.
pub open spec fn is_digit(c: char) -> bool {
    '0' <= c <= '9'
}

/// The value of a single decimal digit.
pub open spec fn digit_of(c: char) -> nat {
    (c as u32 - 48) as nat
}

/// A non-empty run of decimal digits.
pub open spec fn is_decimal(s: Seq<char>) -> bool {
    &&& s.len() > 0
    &&& forall|i: int| 0 <= i < s.len() ==> is_digit(#[trigger] s[i])
}

/// The number that a run of decimal digits denotes.
pub open spec fn digits_value(s: Seq<char>) -> nat
    decreases s.len(),
{
    if s.len() == 0 {
        0
    } else {
        digits_value(s.drop_last()) * 10 + digit_of(s.last())
    }
}

/// The digits of `s` denote a number that fits in a `usize`.
pub open spec fn fits_usize(s: Seq<char>) -> bool {
    is_decimal(s) && digits_value(s) <= usize::MAX
}

/// A prefix of a run of digits never denotes more than the whole run.
proof fn lemma_prefix_value_le(s: Seq<char>, i: int)
    requires
        0 <= i <= s.len(),
    ensures
        digits_value(s.subrange(0, i)) <= digits_value(s),
    decreases s.len(),
{
    if i < s.len() {
        assert(s.drop_last().subrange(0, i) =~= s.subrange(0, i));
        lemma_prefix_value_le(s.drop_last(), i);
    } else {
        assert(s.subrange(0, i) =~= s);
    }
}

/// Reads the digits of `s` from char position `from` to the end as a number.
fn decimal_value(s: &str, from: usize) -> (r: Option<usize>)
    requires
        from <= s@.len(),
    ensures
        r is Some <==> fits_usize(s@.skip(from as int)),
        r is Some ==> r->0 as nat == digits_value(s@.skip(from as int)),
{
    let n = s.unicode_len();
    if from == n {
        return None;
    }
    let mut acc: usize = 0;
    let mut i: usize = from;
    while i < n
        invariant
            n == s@.len(),
            from <= i <= n,
            forall|j: int| from <= j < i ==> is_digit(#[trigger] s@[j]),
            acc as nat == digits_value(s@.subrange(from as int, i as int)),
        decreases n - i,
    {
        let c = s.get_char(i);
        let ghost whole = s@.skip(from as int);
        proof {
            assert(s@.subrange(from as int, i + 1).drop_last() =~= s@.subrange(from as int, i as int));
            assert(whole.subrange(0, i + 1 - from) =~= s@.subrange(from as int, i + 1));
        }
        if !('0' <= c && c <= '9') {
            proof {
                assert(whole[i - from] == c);
            }
            return None;
        }
        let d: usize = (c as u32 - 48) as usize;
        match acc.checked_mul(10) {
            None => {
                proof {
                    lemma_prefix_value_le(whole, i + 1 - from);
                }
                return None;
            },
            Some(m) => match m.checked_add(d) {
                None => {
                    proof {
                        lemma_prefix_value_le(whole, i + 1 - from);
                    }
                    return None;
                },
                Some(v) => {
                    acc = v;
                },
            },
        }
        i = i + 1;
    }
    proof {
        assert(s@.subrange(from as int, n as int) =~= s@.skip(from as int));
    }
    Some(acc)
}

/// What the parser of `usize` in the standard library accepts: an optional
/// `+` followed by digits whose value fits.
pub open spec fn std_usize_text(s: Seq<char>) -> bool {
    if s.len() > 0 && s[0] == '+' {
        fits_usize(s.skip(1))
    } else {
        fits_usize(s)
    }
}

/// The value of a text that `std_usize_text` accepts.
pub open spec fn std_usize_value(s: Seq<char>) -> nat {
    if s.len() > 0 && s[0] == '+' {
        digits_value(s.skip(1))
    } else {
        digits_value(s)
    }
}

/// Reads `s` as the standard library reads a `usize`.
pub fn parse_usize(s: &str) -> (r: Option<usize>)
    ensures
        r is Some <==> std_usize_text(s@),
        r is Some ==> r->0 as nat == std_usize_value(s@),
{
    let n = s.unicode_len();
    proof {
        assert(s@.skip(0) =~= s@);
    }
    if n > 0 && s.get_char(0) == '+' {
        decimal_value(s, 1)
    } else {
        decimal_value(s, 0)
    }
}

/// The one-based position that a list token names: a positive decimal number
/// that fits in a `usize`, with no sign.
pub open spec fn index_value(t: Seq<char>) -> Option<nat> {
    if t.len() > 0 && t[0] == '+' {
        None
    } else if fits_usize(t) && digits_value(t) >= 1 {
        Some(digits_value(t))
    } else {
        None
    }
}

/// What can go wrong in a position list.
#[derive(Debug)]
pub enum RangeError {
    /// A token, or one side of a range, that is not a positive number.
    IllegalValue(String),
    /// A range whose first number (one-based) is not below its second.
    InvertedRange(usize, usize),
}

/// The mathematical form of `RangeError`.
pub enum RangeErrorView {
    IllegalValue(Seq<char>),
    InvertedRange(nat, nat),
}

impl View for RangeError {
    type V = RangeErrorView;

    open spec fn view(&self) -> RangeErrorView {
        match self {
            RangeError::IllegalValue(s) => RangeErrorView::IllegalValue(s@),
            RangeError::InvertedRange(a, b) => RangeErrorView::InvertedRange(*a as nat, *b as nat),
        }
    }
}

/// The message that describes an error of a position list.
pub open spec fn range_error_text(e: RangeErrorView) -> Seq<char> {
    match e {
        RangeErrorView::IllegalValue(s) => "illegal list value: \""@ + s + "\""@,
        RangeErrorView::InvertedRange(a, b) => "First number in range ("@ + decimal_text(a)
            + ") must be lower than second number ("@ + decimal_text(b) + ")"@,
    }
}

impl RangeError {
    /// The message that describes this error.
    pub fn message(&self) -> (r: String)
        ensures
            r@ == range_error_text(self@),
    {
        match self {
            RangeError::IllegalValue(s) => {
                let mut out = "illegal list value: \"".to_owned();
                out.append(s.as_str());
                out.append("\"");
                out
            },
            RangeError::InvertedRange(a, b) => {
                let mut out = "First number in range (".to_owned();
                push_decimal(&mut out, *a);
                out.append(") must be lower than second number (");
                push_decimal(&mut out, *b);
                out.append(")");
                out
            },
        }
    }
}

/// Reads a one-based position and returns it zero-based.
pub fn parse_index(input: &str) -> (r: Result<usize, RangeError>)
    ensures
        r is Ok <==> index_value(input@) is Some,
        r is Ok ==> r->Ok_0 + 1 == index_value(input@)->0,
        r is Err ==> r->Err_0@ == RangeErrorView::IllegalValue(input@),
{
    let n = input.unicode_len();
    if n > 0 && input.get_char(0) == '+' {
        return Err(RangeError::IllegalValue(input.to_owned()));
    }
    proof {
        assert(input@.skip(0) =~= input@);
    }
    match decimal_value(input, 0) {
        Some(v) => {
            if v >= 1 {
                Ok(v - 1)
            } else {
                Err(RangeError::IllegalValue(input.to_owned()))
            }
        },
        None => Err(RangeError::IllegalValue(input.to_owned())),
    }
}

/// `s` cut at every occurrence of `sep`: `n` separators give `n + 1` pieces,
/// and an empty text gives one empty piece.
pub open spec fn split_on(s: Seq<char>, sep: char) -> Seq<Seq<char>>
    decreases s.len(),
{
    if s.len() == 0 {
        seq![Seq::empty()]
    } else {
        let rest = split_on(s.drop_last(), sep);
        if s.last() == sep {
            rest.push(Seq::empty())
        } else {
            rest.update(rest.len() - 1, rest.last().push(s.last()))
        }
    }
}

/// The texts of a sequence of string slices.
pub open spec fn views(v: Seq<&str>) -> Seq<Seq<char>> {
    v.map_values(|t: &str| t@)
}

/// Cuts `s` at every occurrence of `sep`.
fn split_on_char<'a>(s: &'a str, sep: char) -> (r: Vec<&'a str>)
    ensures
        views(r@) == split_on(s@, sep),
{
    let n = s.unicode_len();
    let mut toks: Vec<&'a str> = Vec::new();
    let mut start: usize = 0;
    let mut i: usize = 0;
    proof {
        assert(s@.subrange(0, 0) =~= Seq::<char>::empty());
        assert(views(toks@) =~= Seq::<Seq<char>>::empty());
        assert(views(toks@).push(Seq::<char>::empty()) =~= split_on(Seq::<char>::empty(), sep));
    }
    while i < n
        invariant
            n == s@.len(),
            start <= i <= n,
            split_on(s@.subrange(0, i as int), sep) == views(toks@).push(
                s@.subrange(start as int, i as int),
            ),
        decreases n - i,
    {
        let c = s.get_char(i);
        let ghost before = views(toks@);
        proof {
            assert(s@.subrange(0, i + 1).drop_last() =~= s@.subrange(0, i as int));
        }
        if c == sep {
            let t = s.substring_char(start, i);
            toks.push(t);
            proof {
                assert(views(toks@) =~= before.push(t@));
                assert(s@.subrange(i + 1, i + 1) =~= Seq::<char>::empty());
            }
            start = i + 1;
        } else {
            proof {
                assert(s@.subrange(start as int, i + 1) =~= s@.subrange(start as int, i as int).push(c));
                assert(before.push(s@.subrange(start as int, i as int)).update(
                    before.len() as int,
                    s@.subrange(start as int, i + 1),
                ) =~= before.push(s@.subrange(start as int, i + 1)));
            }
        }
        i = i + 1;
    }
    let ghost before = views(toks@);
    let t = s.substring_char(start, n);
    toks.push(t);
    proof {
        assert(s@.subrange(0, n as int) =~= s@);
        assert(views(toks@) =~= before.push(t@));
    }
    toks
}

/// The number of characters before the first `-` (all of them if none is).
pub open spec fn piece_len(s: Seq<char>) -> nat
    decreases s.len(),
{
    if s.len() == 0 || s[0] == '-' {
        0
    } else {
        1 + piece_len(s.drop_first())
    }
}

/// Finds the first `-` in `s`, or its length if it holds none.
fn dash_position(s: &str) -> (r: usize)
    ensures
        r == piece_len(s@),
        r <= s@.len(),
{
    let n = s.unicode_len();
    let mut i: usize = 0;
    proof {
        assert(s@.skip(0) =~= s@);
    }
    while i < n
        invariant
            n == s@.len(),
            i <= n,
            piece_len(s@) == i + piece_len(s@.skip(i as int)),
        decreases n - i,
    {
        if s.get_char(i) == '-' {
            return i;
        }
        proof {
            assert(s@.skip(i as int).drop_first() =~= s@.skip(i + 1));
        }
        i = i + 1;
    }
    i
}

/// Tells whether `s` is a non-empty run of decimal digits.
fn all_digits(s: &str) -> (r: bool)
    ensures
        r == is_decimal(s@),
{
    let n = s.unicode_len();
    if n == 0 {
        return false;
    }
    let mut i: usize = 0;
    while i < n
        invariant
            n == s@.len(),
            i <= n,
            forall|j: int| 0 <= j < i ==> is_digit(#[trigger] s@[j]),
        decreases n - i,
    {
        let c = s.get_char(i);
        if !('0' <= c && c <= '9') {
            return false;
        }
        i = i + 1;
    }
    true
}

/// The range that one token of a position list describes, zero-based and
/// half-open: `N` gives `[N-1, N)` and `N-M` gives `[N-1, M)`.
pub open spec fn token_range(t: Seq<char>) -> Result<(int, int), RangeErrorView> {
    match index_value(t) {
        Some(v) => Ok((v - 1, v as int)),
        None => {
            let k = piece_len(t) as int;
            let a = t.subrange(0, k);
            let b = t.skip(k + 1);
            if k < t.len() && is_decimal(a) && is_decimal(b) {
                match index_value(a) {
                    None => Err(RangeErrorView::IllegalValue(a)),
                    Some(x) => match index_value(b) {
                        None => Err(RangeErrorView::IllegalValue(b)),
                        Some(y) => if x >= y {
                            Err(RangeErrorView::InvertedRange(x, y))
                        } else {
                            Ok((x - 1, y as int))
                        },
                    },
                }
            } else {
                Err(RangeErrorView::IllegalValue(t))
            }
        },
    }
}

/// The range that one token describes in the plain reading of a list: `N`
/// gives `[N, N)`, and `N-M...` gives `[N, M)` from the first two pieces
/// between dashes; each number is read as the standard library reads a
/// `usize`.
pub open spec fn plain_token_range(t: Seq<char>) -> Result<(int, int), RangeErrorView> {
    let k = piece_len(t) as int;
    if k == t.len() {
        if std_usize_text(t) {
            Ok((std_usize_value(t) as int, std_usize_value(t) as int))
        } else {
            Err(RangeErrorView::IllegalValue(t))
        }
    } else {
        let a = t.subrange(0, k);
        let rest = t.skip(k + 1);
        let b = rest.subrange(0, piece_len(rest) as int);
        if !std_usize_text(a) {
            Err(RangeErrorView::IllegalValue(a))
        } else if !std_usize_text(b) {
            Err(RangeErrorView::IllegalValue(b))
        } else {
            Ok((std_usize_value(a) as int, std_usize_value(b) as int))
        }
    }
}

/// The range of one token, in the plain reading or in the checked one.
pub open spec fn token_of(plain: bool, t: Seq<char>) -> Result<(int, int), RangeErrorView> {
    if plain {
        plain_token_range(t)
    } else {
        token_range(t)
    }
}

/// The ranges of a sequence of tokens, in order, or the error of the first
/// token that has none.
pub open spec fn parse_tokens(plain: bool, toks: Seq<Seq<char>>) -> Result<
    Seq<(int, int)>,
    RangeErrorView,
>
    decreases toks.len(),
{
    if toks.len() == 0 {
        Ok(seq![])
    } else {
        match token_of(plain, toks[0]) {
            Err(e) => Err(e),
            Ok(r) => match parse_tokens(plain, toks.drop_first()) {
                Err(e) => Err(e),
                Ok(rs) => Ok(seq![r] + rs),
            },
        }
    }
}

/// The ranges that a comma-separated position list describes.
pub open spec fn range_list(s: Seq<char>) -> Result<Seq<(int, int)>, RangeErrorView> {
    parse_tokens(false, split_on(s, ','))
}

/// The ranges of a comma-separated list in the plain reading.
pub open spec fn plain_range_list(s: Seq<char>) -> Result<Seq<(int, int)>, RangeErrorView> {
    parse_tokens(true, split_on(s, ','))
}

/// The bounds of a sequence of ranges.
pub open spec fn positions(v: Seq<Range<usize>>) -> Seq<(int, int)> {
    v.map_values(|r: Range<usize>| (r.start as int, r.end as int))
}

/// The mathematical form of a parsed list.
pub open spec fn list_view(r: Result<Vec<Range<usize>>, RangeError>) -> Result<
    Seq<(int, int)>,
    RangeErrorView,
> {
    match r {
        Ok(v) => Ok(positions(v@)),
        Err(e) => Err(e@),
    }
}

/// The mathematical form of a parsed token.
pub open spec fn range_view(r: Result<Range<usize>, RangeError>) -> Result<
    (int, int),
    RangeErrorView,
> {
    match r {
        Ok(x) => Ok((x.start as int, x.end as int)),
        Err(e) => Err(e@),
    }
}

/// `prefix` put in front of the ranges of `rest`, or the error of `rest`.
pub open spec fn prepend(prefix: Seq<(int, int)>, rest: Result<Seq<(int, int)>, RangeErrorView>) -> Result<
    Seq<(int, int)>,
    RangeErrorView,
> {
    match rest {
        Ok(rs) => Ok(prefix + rs),
        Err(e) => Err(e),
    }
}

/// Reads one token in the checked reading.
fn parse_token(t: &str) -> (r: Result<Range<usize>, RangeError>)
    ensures
        range_view(r) == token_range(t@),
{
    match parse_index(t) {
        Ok(n) => Ok(Range { start: n, end: n + 1 }),
        Err(e) => {
            let k = dash_position(t);
            let len = t.unicode_len();
            if k < len {
                let a = t.substring_char(0, k);
                let b = t.substring_char(k + 1, len);
                proof {
                    assert(b@ =~= t@.skip(k + 1));
                }
                if all_digits(a) && all_digits(b) {
                    let n1 = match parse_index(a) {
                        Ok(v) => v,
                        Err(e1) => {
                            return Err(e1);
                        },
                    };
                    let n2 = match parse_index(b) {
                        Ok(v) => v,
                        Err(e2) => {
                            return Err(e2);
                        },
                    };
                    if n1 >= n2 {
                        return Err(RangeError::InvertedRange(n1 + 1, n2 + 1));
                    }
                    return Ok(Range { start: n1, end: n2 + 1 });
                }
            }
            Err(e)
        },
    }
}

/// Reads one token in the plain reading.
fn parse_plain_token(t: &str) -> (r: Result<Range<usize>, RangeError>)
    ensures
        range_view(r) == plain_token_range(t@),
{
    let k = dash_position(t);
    let len = t.unicode_len();
    if k == len {
        match parse_usize(t) {
            Some(v) => Ok(Range { start: v, end: v }),
            None => Err(RangeError::IllegalValue(t.to_owned())),
        }
    } else {
        let a = t.substring_char(0, k);
        let rest = t.substring_char(k + 1, len);
        proof {
            assert(rest@ =~= t@.skip(k + 1));
        }
        let k2 = dash_position(rest);
        let b = rest.substring_char(0, k2);
        let start = match parse_usize(a) {
            Some(v) => v,
            None => {
                return Err(RangeError::IllegalValue(a.to_owned()));
            },
        };
        let end = match parse_usize(b) {
            Some(v) => v,
            None => {
                return Err(RangeError::IllegalValue(b.to_owned()));
            },
        };
        Ok(Range { start, end })
    }
}

/// Reads a comma-separated list, token by token.
fn parse_list(text: &str, plain: bool) -> (r: Result<Vec<Range<usize>>, RangeError>)
    ensures
        list_view(r) == parse_tokens(plain, split_on(text@, ',')),
{
    let toks = split_on_char(text, ',');
    let ghost all = views(toks@);
    let mut out: Vec<Range<usize>> = Vec::new();
    let mut j: usize = 0;
    proof {
        assert(all.skip(0) =~= all);
        match parse_tokens(plain, all) {
            Ok(rs) => {
                assert(positions(out@) + rs =~= rs);
            },
            Err(_) => {},
        }
    }
    while j < toks.len()
        invariant
            all == views(toks@),
            all == split_on(text@, ','),
            j <= toks@.len(),
            parse_tokens(plain, all) == prepend(positions(out@), parse_tokens(plain, all.skip(j as int))),
        decreases toks@.len() - j,
    {
        let t = toks[j];
        let piece = if plain {
            parse_plain_token(t)
        } else {
            parse_token(t)
        };
        let ghost rest = all.skip(j as int);
        proof {
            assert(rest[0] == t@);
            assert(rest.drop_first() =~= all.skip(j + 1));
        }
        match piece {
            Ok(x) => {
                let ghost before = positions(out@);
                out.push(x);
                proof {
                    assert(positions(out@) =~= before.push((x.start as int, x.end as int)));
                    match parse_tokens(plain, all.skip(j + 1)) {
                        Ok(rs) => {
                            assert(before + (seq![(x.start as int, x.end as int)] + rs)
                                =~= positions(out@) + rs);
                        },
                        Err(_) => {},
                    }
                }
            },
            Err(e) => {
                return Err(e);
            },
        }
        j = j + 1;
    }
    proof {
        assert(all.skip(j as int) =~= Seq::<Seq<char>>::empty());
        assert(positions(out@) + Seq::<(int, int)>::empty() =~= positions(out@));
    }
    Ok(out)
}

/// Parses a position list such as `1,3-5`: each token is a positive number
/// `N`, giving `[N-1, N)`, or a range `N-M` with `N < M`, giving `[N-1, M)`.
/// A token with a `+` sign, a zero, or anything else that is not a positive
/// number is refused, as is a range whose first number is not below its
/// second; the first bad token decides the error. An empty list is one empty
/// token, and so is refused.
pub fn parse_pos(range: &str) -> (r: Result<Vec<Range<usize>>, RangeError>)
    ensures
        list_view(r) == range_list(range@),
{
    parse_list(range, false)
}

/// Parses a comma-separated list in the plain reading: a number `N` gives
/// `[N, N)` and `N-M` gives `[N, M)`, with no check of the numbers beyond
/// their being `usize` values.
pub fn parse_pos_basic(range: &str) -> (r: Result<Vec<Range<usize>>, RangeError>)
    ensures
        list_view(r) == plain_range_list(range@),
{
    parse_list(range, true)
}

/// A text without the separator is a single piece.
proof fn lemma_split_without_sep(s: Seq<char>, sep: char)
    requires
        forall|i: int| 0 <= i < s.len() ==> s[i] != sep,
    ensures
        split_on(s, sep) == seq![s],
    decreases s.len(),
{
    if s.len() > 0 {
        lemma_split_without_sep(s.drop_last(), sep);
        assert(s.drop_last().push(s.last()) =~= s);
        assert(seq![s.drop_last()].update(0, s) =~= seq![s]);
    } else {
        assert(s =~= Seq::<char>::empty());
    }
}

/// A list of one token gives that token's range or error.
proof fn lemma_one_token(t: Seq<char>)
    requires
        forall|i: int| 0 <= i < t.len() ==> t[i] != ',',
    ensures
        range_list(t) == match token_range(t) {
            Ok(r) => Ok(seq![r]),
            Err(e) => Err(e),
        },
{
    lemma_split_without_sep(t, ',');
    let toks = seq![t];
    assert(toks[0] == t);
    assert(toks.drop_first() =~= Seq::<Seq<char>>::empty());
    assert(parse_tokens(false, toks.drop_first()) == Ok::<Seq<(int, int)>, RangeErrorView>(seq![]));
    match token_range(t) {
        Ok(r) => {
            assert(seq![r] + Seq::<(int, int)>::empty() =~= seq![r]);
        },
        Err(_) => {},
    }
}

/// A list that is one positive number `N` (any digits, no sign) gives
/// exactly the range `[N-1, N)`.
pub proof fn lemma_single_number(t: Seq<char>)
    requires
        is_decimal(t),
        1 <= digits_value(t) <= usize::MAX,
    ensures
        range_list(t) == Ok::<Seq<(int, int)>, RangeErrorView>(
            seq![(digits_value(t) - 1, digits_value(t) as int)],
        ),
{
    assert(is_digit(t[0]));
    lemma_one_token(t);
}

/// The first `-` of `a + rest` is right after `a` when `a` holds none and
/// `rest` starts with one.
proof fn lemma_piece_len_at(a: Seq<char>, rest: Seq<char>)
    requires
        forall|i: int| 0 <= i < a.len() ==> a[i] != '-',
        rest.len() > 0,
        rest[0] == '-',
    ensures
        piece_len(a + rest) == a.len(),
    decreases a.len(),
{
    if a.len() == 0 {
        assert(a + rest =~= rest);
    } else {
        assert((a + rest).drop_first() =~= a.drop_first() + rest);
        lemma_piece_len_at(a.drop_first(), rest);
    }
}

/// A list that is one range `N-M` of positive numbers (digits, no sign)
/// gives exactly `[N-1, M)` when `N < M`, and fails with both numbers when
/// `N >= M`.
pub proof fn lemma_range_token(a: Seq<char>, b: Seq<char>)
    requires
        is_decimal(a),
        is_decimal(b),
        1 <= digits_value(a) <= usize::MAX,
        1 <= digits_value(b) <= usize::MAX,
    ensures
        digits_value(a) < digits_value(b) ==> range_list(a + seq!['-'] + b) == Ok::<
            Seq<(int, int)>,
            RangeErrorView,
        >(seq![(digits_value(a) - 1, digits_value(b) as int)]),
        digits_value(a) >= digits_value(b) ==> range_list(a + seq!['-'] + b) == Err::<
            Seq<(int, int)>,
            RangeErrorView,
        >(RangeErrorView::InvertedRange(digits_value(a), digits_value(b))),
{
    let t = a + seq!['-'] + b;
    let k = a.len() as int;
    assert forall|i: int| 0 <= i < t.len() implies t[i] != ',' by {
        if i < k {
            assert(t[i] == a[i] && is_digit(a[i]));
        } else if i > k {
            assert(t[i] == b[i - k - 1] && is_digit(b[i - k - 1]));
        }
    }
    lemma_one_token(t);
    assert(t[k] == '-');
    assert(!is_digit(t[k]));
    assert(!is_decimal(t));
    assert(is_digit(a[0]));
    assert(t[0] == a[0]);
    assert forall|i: int| 0 <= i < a.len() implies a[i] != '-' by {
        assert(is_digit(a[i]));
    }
    assert(t =~= a + (seq!['-'] + b));
    lemma_piece_len_at(a, seq!['-'] + b);
    assert(t.subrange(0, k) =~= a);
    assert(t.skip(k + 1) =~= b);
    assert(is_digit(b[0]));
}

/// Every token of a list is read before the list is: one token that has no
/// range makes the whole list fail.
proof fn lemma_bad_token_fails(plain: bool, toks: Seq<Seq<char>>, j: int)
    requires
        0 <= j < toks.len(),
        token_of(plain, toks[j]) is Err,
    ensures
        parse_tokens(plain, toks) is Err,
    decreases toks.len(),
{
    if j > 0 {
        assert(toks.drop_first()[j - 1] == toks[j]);
        lemma_bad_token_fails(plain, toks.drop_first(), j - 1);
    }
}

/// A token with a leading `+` has no range, whatever follows the sign.
proof fn lemma_plus_token(t: Seq<char>)
    requires
        t.len() > 0,
        t[0] == '+',
    ensures
        token_range(t) is Err,
{
    let k = piece_len(t) as int;
    if k > 0 && k < t.len() {
        assert(t.subrange(0, k)[0] == '+');
        assert(!is_digit(t.subrange(0, k)[0]));
    }
}

/// A list in which some token starts with `+` is refused, even where the
/// rest of that token is a number.
pub proof fn lemma_plus_sign_refused(s: Seq<char>, j: int)
    requires
        0 <= j < split_on(s, ',').len(),
        split_on(s, ',')[j].len() > 0,
        split_on(s, ',')[j][0] == '+',
    ensures
        range_list(s) is Err,
{
    lemma_plus_token(split_on(s, ',')[j]);
    lemma_bad_token_fails(false, split_on(s, ','), j);
}

} // verus!
