use std::ops::Range;
use vstd::prelude::*;
use vstd::string::*;

use crate::text::{decimal, digit_char, index_of, lemma_index_of, lemma_index_of_facts, split, to_decimal};

verus! {

broadcast use vstd::string::group_string_axioms;

/// A parsed selector: half-open, zero-based ranges in the order written.
pub type PositionList = Vec<Range<usize>>;

/// Why a selector string was rejected.
#[derive(Debug)]
pub enum ParseError {
    /// A token that is not a positive integer or a pair of them; holds the whole token.
    InvalidValue(String),
    /// A range `n1-n2` with `n1 >= n2`; holds both numbers as written.
    RangeOrder(usize, usize),
}

/// The mathematical form of a [`ParseError`].
pub ghost enum SelectorError {
    InvalidValue(Seq<char>),
    RangeOrder(nat, nat),
}

impl View for ParseError {
    type V = SelectorError;

    open spec fn view(&self) -> SelectorError {
        match self {
            ParseError::InvalidValue(t) => SelectorError::InvalidValue(t@),
            ParseError::RangeOrder(a, b) => SelectorError::RangeOrder(*a as nat, *b as nat),
        }
    }
}

pub open spec fn is_digit(c: char) -> bool {
    48 <= (c as u32) && (c as u32) <= 57
}

pub open spec fn digit_value(c: char) -> nat {
    ((c as u32) - 48) as nat
}

/// A non-empty string of ASCII decimal digits (no sign).
pub open spec fn is_numeral(t: Seq<char>) -> bool {
    t.len() > 0 && forall|i: int| 0 <= i < t.len() ==> is_digit(#[trigger] t[i])
}

/// The value of a string of decimal digits; leading zeros add nothing.
pub open spec fn digits_value(t: Seq<char>) -> nat
    decreases t.len(),
{
    if t.len() == 0 {
        0
    } else {
        digits_value(t.drop_last()) * 10 + digit_value(t.last())
    }
}

/// A one-based position: digits only, value at least one, fitting in `usize`.
pub open spec fn is_position(t: Seq<char>) -> bool {
    is_numeral(t) && 1 <= digits_value(t) <= usize::MAX
}

pub open spec fn span(first: nat, last: nat) -> Range<usize> {
    Range { start: (first - 1) as usize, end: last as usize }
}

/// The meaning of one comma-free token.
pub open spec fn parse_token(t: Seq<char>) -> Result<Range<usize>, SelectorError> {
    let h = index_of(t, '-') as int;
    if h >= t.len() {
        if is_position(t) {
            Ok(span(digits_value(t), digits_value(t)))
        } else {
            Err(SelectorError::InvalidValue(t))
        }
    } else {
        let l = t.take(h);
        let r = t.skip(h + 1);
        if is_position(l) && is_position(r) {
            if digits_value(l) >= digits_value(r) {
                Err(SelectorError::RangeOrder(digits_value(l), digits_value(r)))
            } else {
                Ok(span(digits_value(l), digits_value(r)))
            }
        } else {
            Err(SelectorError::InvalidValue(t))
        }
    }
}

/// The ranges of all tokens in order, or the error of the first bad one.
pub open spec fn parse_tokens(ts: Seq<Seq<char>>) -> Result<Seq<Range<usize>>, SelectorError>
    decreases ts.len(),
{
    if ts.len() == 0 {
        Ok(seq![])
    } else {
        match parse_token(ts[0]) {
            Err(e) => Err(e),
            Ok(r) => match parse_tokens(ts.drop_first()) {
                Err(e) => Err(e),
                Ok(rs) => Ok(seq![r] + rs),
            },
        }
    }
}

/// What a selector string means.
pub open spec fn parse_selector(s: Seq<char>) -> Result<Seq<Range<usize>>, SelectorError> {
    parse_tokens(split(s, ','))
}

pub open spec fn prepend(
    xs: Seq<Range<usize>>,
    r: Result<Seq<Range<usize>>, SelectorError>,
) -> Result<Seq<Range<usize>>, SelectorError> {
    match r {
        Ok(ys) => Ok(xs + ys),
        Err(e) => Err(e),
    }
}

pub open spec fn parse_view(r: Result<PositionList, ParseError>) -> Result<
    Seq<Range<usize>>,
    SelectorError,
> {
    match r {
        Ok(v) => Ok(v@),
        Err(e) => Err(e@),
    }
}

/// Every range is non-empty: `start < end`.
pub open spec fn valid_positions(l: Seq<Range<usize>>) -> bool {
    forall|i: int| 0 <= i < l.len() ==> (#[trigger] l[i]).start < l[i].end
}

pub open spec fn error_message(e: SelectorError) -> Seq<char> {
    match e {
        SelectorError::InvalidValue(t) => "illegal list value: \""@ + t + "\""@,
        SelectorError::RangeOrder(a, b) => "First number in range ("@ + decimal(a) + ") must be lower than second number ("@
            + decimal(b) + ")"@,
    }
}

impl ParseError {
    /// The message shown to a user.
    pub fn to_string(&self) -> (r: String)
        ensures
            r@ == error_message(self@),
    {
        match self {
            ParseError::InvalidValue(t) => {
                let mut s = String::from_str("illegal list value: \"");
                s.append(t.as_str());
                s.append("\"");
                s
            },
            ParseError::RangeOrder(a, b) => {
                let mut s = String::from_str("First number in range (");
                let da = to_decimal(*a);
                s.append(da.as_str());
                s.append(") must be lower than second number (");
                let db = to_decimal(*b);
                s.append(db.as_str());
                s.append(")");
                s
            },
        }
    }
}

proof fn lemma_prefix_value(t: Seq<char>, k: int)
    requires
        is_numeral(t),
        0 <= k <= t.len(),
    ensures
        digits_value(t.take(k)) <= digits_value(t),
    decreases t.len(),
{
    if k == t.len() {
        assert(t.take(k) =~= t);
    } else {
        let d = t.drop_last();
        assert(d.take(k) =~= t.take(k));
        if d.len() > 0 {
            assert forall|i: int| 0 <= i < d.len() implies is_digit(#[trigger] d[i]) by {
                assert(is_digit(t[i]));
            }
            lemma_prefix_value(d, k);
        } else {
            assert(t.take(k) =~= seq![]);
        }
    }
}

pub(crate) fn chars_of(s: &str) -> (r: Vec<char>)
    ensures
        r@ == s@,
{
    let mut v: Vec<char> = Vec::new();
    for c in it: s.chars()
        invariant
            it.seq() == s@,
            v@ == s@.take(it.index() as int),
    {
        v.push(c);
        assert(v@ =~= s@.take(it.index() + 1));
    }
    assert(v@ =~= s@);
    v
}

/// First index of `c` in `v[from..end]`, or `end`.
fn find_from(v: &Vec<char>, from: usize, end: usize, c: char) -> (r: usize)
    requires
        from <= end <= v.len(),
    ensures
        from <= r <= end,
        r - from == index_of(v@.subrange(from as int, end as int), c),
{
    let mut i = from;
    while i < end && v[i] != c
        invariant
            from <= i <= end <= v.len(),
            forall|m: int| from <= m < i ==> v@[m] != c,
        decreases end - i,
    {
        i += 1;
    }
    proof {
        let t = v@.subrange(from as int, end as int);
        assert forall|m: int| 0 <= m < i - from implies t[m] != c by {
            assert(v@[from + m] != c);
        }
        lemma_index_of(t, c, i - from);
    }
    i
}

/// Reads `v[a..b]` as a one-based position.
pub(crate) fn parse_number(v: &Vec<char>, a: usize, b: usize) -> (r: Option<usize>)
    requires
        a <= b <= v.len(),
    ensures
        match r {
            Some(n) => is_position(v@.subrange(a as int, b as int)) && n == digits_value(
                v@.subrange(a as int, b as int),
            ),
            None => !is_position(v@.subrange(a as int, b as int)),
        },
{
    let ghost t = v@.subrange(a as int, b as int);
    if a == b {
        return None;
    }
    let mut value: usize = 0;
    let mut i = a;
    while i < b
        invariant
            a <= i <= b <= v.len(),
            t == v@.subrange(a as int, b as int),
            forall|m: int| a <= m < i ==> is_digit(#[trigger] v@[m]),
            value == digits_value(v@.subrange(a as int, i as int)),
        decreases b - i,
    {
        let c = v[i];
        let code = c as u32;
        if code < 48 || code > 57 {
            assert(!is_digit(t[i - a]));
            return None;
        }
        let d = (code - 48) as usize;
        let ghost next = v@.subrange(a as int, i + 1);
        assert(next.drop_last() =~= v@.subrange(a as int, i as int));
        if value > (usize::MAX - d) / 10 {
            proof {
                assert(digits_value(next) > usize::MAX);
                if is_numeral(t) {
                    lemma_prefix_value(t, i + 1 - a);
                    assert(t.take(i + 1 - a) =~= next);
                }
            }
            return None;
        }
        value = value * 10 + d;
        i += 1;
    }
    assert(v@.subrange(a as int, i as int) =~= t);
    assert(is_numeral(t)) by {
        assert forall|m: int| 0 <= m < t.len() implies is_digit(#[trigger] t[m]) by {
            assert(is_digit(v@[a + m]));
        }
    }
    if value == 0 {
        None
    } else {
        Some(value)
    }
}

fn invalid_token(s: &str, a: usize, b: usize) -> (e: ParseError)
    requires
        a <= b <= s@.len(),
    ensures
        e@ == SelectorError::InvalidValue(s@.subrange(a as int, b as int)),
{
    ParseError::InvalidValue(String::from_str(s.substring_char(a, b)))
}

/// Parses the token `v[a..b]`, whose text is `s`'s characters.
fn parse_token_at(s: &str, v: &Vec<char>, a: usize, b: usize) -> (r: Result<Range<usize>, ParseError>)
    requires
        a <= b <= v.len(),
        v@ == s@,
    ensures
        match r {
            Ok(rg) => parse_token(v@.subrange(a as int, b as int)) == Ok::<Range<usize>, SelectorError>(rg),
            Err(e) => parse_token(v@.subrange(a as int, b as int)) == Err::<Range<usize>, SelectorError>(e@),
        },
{
    let ghost t = v@.subrange(a as int, b as int);
    let h = find_from(v, a, b, '-');
    if h == b {
        match parse_number(v, a, b) {
            Some(n) => Ok(Range { start: n - 1, end: n }),
            None => Err(invalid_token(s, a, b)),
        }
    } else {
        assert(t.take(h - a) =~= v@.subrange(a as int, h as int));
        assert(t.skip(h - a + 1) =~= v@.subrange(h + 1, b as int));
        let left = parse_number(v, a, h);
        let right = parse_number(v, h + 1, b);
        match (left, right) {
            (Some(n1), Some(n2)) => {
                if n1 >= n2 {
                    Err(ParseError::RangeOrder(n1, n2))
                } else {
                    Ok(Range { start: n1 - 1, end: n2 })
                }
            },
            _ => Err(invalid_token(s, a, b)),
        }
    }
}

proof fn lemma_parse_step_ok(
    xs: Seq<Range<usize>>,
    tok: Seq<char>,
    rest: Seq<Seq<char>>,
    r: Range<usize>,
)
    requires
        parse_token(tok) == Ok::<Range<usize>, SelectorError>(r),
    ensures
        prepend(xs, parse_tokens(seq![tok] + rest)) == prepend(xs.push(r), parse_tokens(rest)),
{
    let ts = seq![tok] + rest;
    assert(ts[0] == tok);
    assert(ts.drop_first() =~= rest);
    match parse_tokens(rest) {
        Ok(rs) => {
            assert(xs + (seq![r] + rs) =~= xs.push(r) + rs);
        },
        Err(_) => {},
    }
}

proof fn lemma_parse_step_err(tok: Seq<char>, rest: Seq<Seq<char>>, e: SelectorError)
    requires
        parse_token(tok) == Err::<Range<usize>, SelectorError>(e),
    ensures
        parse_tokens(seq![tok] + rest) == Err::<Seq<Range<usize>>, SelectorError>(e),
{
    let ts = seq![tok] + rest;
    assert(ts[0] == tok);
}

/// Parses a selector such as `"1,7,3-5"` into zero-based half-open ranges,
/// in the order written. Tokens are separated by commas; each is a positive
/// integer `n` (giving `n-1..n`) or a pair `n1-n2` with `n1 < n2` (giving
/// `n1-1..n2`). Leading zeros are allowed; signs are not.
pub fn parse_pos(range: &str) -> (r: Result<PositionList, ParseError>)
    ensures
        parse_view(r) == parse_selector(range@),
        r is Ok ==> valid_positions(r->Ok_0@) && r->Ok_0@.len() > 0,
{
    let v = chars_of(range);
    let n = v.len();
    let mut out: PositionList = Vec::new();
    let mut start: usize = 0;
    proof {
        assert(v@.skip(0) =~= v@);
    }
    loop
        invariant
            start <= n == v@.len(),
            v@ == range@,
            parse_selector(range@) == prepend(out@, parse_tokens(split(v@.skip(start as int), ','))),
            valid_positions(out@),
        decreases n - start,
    {
        let j = find_from(&v, start, n, ',');
        let ghost t = v@.skip(start as int);
        let ghost tok = v@.subrange(start as int, j as int);
        proof {
            assert(v@.subrange(start as int, n as int) =~= t);
            assert(t.take(j - start) =~= tok);
            if j < n {
                assert(t.skip(j - start + 1) =~= v@.skip(j + 1));
            }
        }
        match parse_token_at(range, &v, start, j) {
            Err(e) => {
                proof {
                    if j == n {
                        assert(split(t, ',') == seq![t]);
                        assert(seq![t] =~= seq![t] + Seq::<Seq<char>>::empty());
                        lemma_parse_step_err(t, Seq::empty(), e@);
                        assert(tok =~= t);
                    } else {
                        lemma_parse_step_err(tok, split(v@.skip(j + 1), ','), e@);
                    }
                }
                return Err(e);
            },
            Ok(rg) => {
                proof {
                    if j == n {
                        assert(tok =~= t);
                        assert(seq![t] =~= seq![t] + Seq::<Seq<char>>::empty());
                        lemma_parse_step_ok(out@, t, Seq::empty(), rg);
                    } else {
                        lemma_parse_step_ok(out@, tok, split(v@.skip(j + 1), ','), rg);
                    }
                }
                let ghost old_out = out@;
                out.push(rg);
                assert(valid_positions(out@)) by {
                    assert forall|i: int| 0 <= i < out@.len() implies (#[trigger] out@[i]).start
                        < out@[i].end by {
                        if i < old_out.len() {
                            assert(out@[i] == old_out[i]);
                        }
                    }
                }
            },
        }
        if j == n {
            assert(parse_tokens(Seq::<Seq<char>>::empty()) == Ok::<Seq<Range<usize>>, SelectorError>(seq![]));
            assert(out@ + seq![] =~= out@);
            return Ok(out);
        }
        start = j + 1;
    }
}

/// The selector text of one range: `n` for a single position, `a-b` otherwise.
pub open spec fn render_range(r: Range<usize>) -> Seq<char> {
    if r.end == r.start + 1 {
        decimal(r.end as nat)
    } else {
        decimal((r.start + 1) as nat) + seq!['-'] + decimal(r.end as nat)
    }
}

/// The selector text of a list: its ranges' texts joined by commas.
pub open spec fn render_list(l: Seq<Range<usize>>) -> Seq<char>
    decreases l.len(),
{
    if l.len() <= 1 {
        if l.len() == 0 {
            seq![]
        } else {
            render_range(l[0])
        }
    } else {
        render_list(l.drop_last()) + seq![','] + render_range(l.last())
    }
}

/// Writes a list of non-empty ranges back as selector text, one token per
/// range in order (`0..1` as `1`, `2..5` as `3-5`).
pub fn format_pos(list: &PositionList) -> (r: String)
    requires
        valid_positions(list@),
    ensures
        r@ == render_list(list@),
{
    let mut out = String::new();
    let mut i: usize = 0;
    assert(out@ =~= render_list(list@.take(0)));
    while i < list.len()
        invariant
            valid_positions(list@),
            i <= list.len(),
            out@ == render_list(list@.take(i as int)),
        decreases list.len() - i,
    {
        let ghost before = out@;
        if i > 0 {
            out.append(",");
        }
        assert(list@[i as int].start < list@[i as int].end);
        let start = list[i].start;
        let end = list[i].end;
        if end == start + 1 {
            let e = to_decimal(end);
            out.append(e.as_str());
        } else {
            let s = to_decimal(start + 1);
            out.append(s.as_str());
            out.append("-");
            let e = to_decimal(end);
            out.append(e.as_str());
        }
        proof {
            reveal_strlit(",");
            reveal_strlit("-");
            let t = list@.take(i + 1);
            assert(t.drop_last() =~= list@.take(i as int));
            if i == 0 {
                assert(out@ =~= render_range(list@[0]));
            } else {
                assert(out@ =~= before + seq![','] + render_range(list@[i as int]));
            }
        }
        i += 1;
    }
    assert(list@.take(list.len() as int) =~= list@);
    out
}

proof fn lemma_digit(d: nat)
    requires
        d < 10,
    ensures
        is_digit(digit_char(d)),
        digit_value(digit_char(d)) == d,
        digit_char(d) != '-',
        digit_char(d) != ',',
{
    let u = (d + 48) as u32;
    assert((u as char) as u32 == u);
}

proof fn lemma_decimal(n: nat)
    ensures
        is_numeral(decimal(n)),
        digits_value(decimal(n)) == n,
        !decimal(n).contains('-'),
        !decimal(n).contains(','),
    decreases n,
{
    lemma_digit(n % 10);
    if n < 10 {
        lemma_digit(n);
        assert(decimal(n).drop_last() =~= Seq::<char>::empty());
        assert(decimal(n).last() == digit_char(n));
        assert(digits_value(decimal(n)) == digits_value(Seq::<char>::empty()) * 10 + digit_value(
            digit_char(n),
        ));
    } else {
        lemma_decimal(n / 10);
        let d = decimal(n);
        let p = decimal(n / 10);
        assert(d.drop_last() =~= p);
        assert(d.last() == digit_char(n % 10));
        assert(digits_value(d) == digits_value(p) * 10 + digit_value(digit_char(n % 10)));
        assert(n == (n / 10) * 10 + n % 10);
        assert forall|i: int| 0 <= i < d.len() implies is_digit(#[trigger] d[i]) by {
            if i < p.len() {
                assert(d[i] == p[i]);
            }
        }
        assert forall|i: int| 0 <= i < d.len() implies d[i] != '-' && d[i] != ',' by {
            if i < p.len() {
                assert(d[i] == p[i]);
            }
        }
    }
}

proof fn lemma_index_of_concat<T>(x: Seq<T>, y: Seq<T>, c: T)
    requires
        !x.contains(c),
    ensures
        index_of(x + y, c) == x.len() + index_of(y, c),
{
    lemma_index_of_facts(y, c);
    let s = x + y;
    let j = x.len() + index_of(y, c);
    assert forall|m: int| 0 <= m < j implies s[m] != c by {
        if m >= x.len() {
            assert(s[m] == y[m - x.len()]);
        }
    }
    if j < s.len() {
        assert(s[j as int] == y[index_of(y, c) as int]);
    }
    lemma_index_of(s, c, j as int);
}

proof fn lemma_split_concat<T>(x: Seq<T>, y: Seq<T>, c: T)
    ensures
        split(x + seq![c] + y, c) == split(x, c) + split(y, c),
    decreases x.len(),
{
    let s = x + seq![c] + y;
    lemma_index_of_facts(x, c);
    let i = index_of(x, c) as int;
    if i == x.len() {
        lemma_index_of_concat(x, seq![c] + y, c);
        assert(s =~= x + (seq![c] + y));
        assert(index_of(seq![c] + y, c) == 0);
        assert(s.take(i) =~= x);
        assert(s.skip(i + 1) =~= y);
    } else {
        let rest = x.skip(i + 1);
        assert(x.take(i) + x.skip(i) =~= x);
        let pre = x.take(i);
        lemma_index_of_facts(pre, c);
        assert(!pre.contains(c)) by {
            assert forall|m: int| 0 <= m < pre.len() implies pre[m] != c by {
                assert(pre[m] == x[m]);
            }
        }
        lemma_index_of_concat(pre, x.skip(i) + seq![c] + y, c);
        assert(s =~= pre + (x.skip(i) + seq![c] + y));
        assert((x.skip(i) + seq![c] + y)[0] == c);
        assert(index_of(x.skip(i) + seq![c] + y, c) == 0);
        assert(s.take(i) =~= pre);
        assert(s.skip(i + 1) =~= rest + seq![c] + y);
        lemma_split_concat(rest, y, c);
        assert(seq![pre] + (split(rest, c) + split(y, c)) =~= (seq![pre] + split(rest, c)) + split(
            y,
            c,
        ));
    }
}

proof fn lemma_parse_tokens_concat(a: Seq<Seq<char>>, b: Seq<Seq<char>>)
    requires
        parse_tokens(a) is Ok,
        parse_tokens(b) is Ok,
    ensures
        parse_tokens(a + b) == Ok::<Seq<Range<usize>>, SelectorError>(
            parse_tokens(a)->Ok_0 + parse_tokens(b)->Ok_0,
        ),
    decreases a.len(),
{
    if a.len() == 0 {
        assert(a + b =~= b);
        assert(parse_tokens(a)->Ok_0 + parse_tokens(b)->Ok_0 =~= parse_tokens(b)->Ok_0);
    } else {
        let s = a + b;
        assert(s[0] == a[0]);
        assert(s.drop_first() =~= a.drop_first() + b);
        lemma_parse_tokens_concat(a.drop_first(), b);
        let r = parse_token(a[0])->Ok_0;
        assert(seq![r] + (parse_tokens(a.drop_first())->Ok_0 + parse_tokens(b)->Ok_0) =~= (seq![r]
            + parse_tokens(a.drop_first())->Ok_0) + parse_tokens(b)->Ok_0);
    }
}

proof fn lemma_no_comma_pair(a: Seq<char>, b: Seq<char>)
    requires
        !a.contains(','),
        !b.contains(','),
    ensures
        !(a + seq!['-'] + b).contains(','),
{
    let t = a + seq!['-'] + b;
    assert forall|m: int| 0 <= m < t.len() implies t[m] != ',' by {
        if m < a.len() {
            assert(t[m] == a[m]);
        } else if m > a.len() {
            assert(t[m] == b[m - a.len() - 1]);
        }
    }
}

#[verifier::rlimit(40)]
proof fn lemma_parse_render_range(r: Range<usize>)
    requires
        r.start < r.end,
    ensures
        parse_token(render_range(r)) == Ok::<Range<usize>, SelectorError>(r),
        !render_range(r).contains(','),
{
    let t = render_range(r);
    lemma_decimal(r.end as nat);
    if r.end == r.start + 1 {
        lemma_index_of_facts(t, '-');
    } else {
        let a = decimal((r.start + 1) as nat);
        let b = decimal(r.end as nat);
        lemma_decimal((r.start + 1) as nat);
        lemma_no_comma_pair(a, b);
        lemma_index_of_concat(a, seq!['-'] + b, '-');
        assert(t =~= a + (seq!['-'] + b));
        assert((seq!['-'] + b)[0] == '-');
        assert(index_of(seq!['-'] + b, '-') == 0);
        let h = index_of(t, '-') as int;
        assert(h == a.len());
        assert(t.take(h) =~= a);
        assert(t.skip(h + 1) =~= b);
        assert(is_position(a) && is_position(b));
        assert(digits_value(a) < digits_value(b));
        assert(span(digits_value(a), digits_value(b)) == r);
    }
}

/// Writing a list of non-empty ranges as selector text and parsing that text
/// gives the same list back, in the same order, repeats included.
pub proof fn lemma_parse_format(l: Seq<Range<usize>>)
    requires
        l.len() > 0,
        valid_positions(l),
    ensures
        parse_selector(render_list(l)) == Ok::<Seq<Range<usize>>, SelectorError>(l),
    decreases l.len(),
{
    let last = l.last();
    lemma_parse_render_range(last);
    lemma_index_of_facts(render_range(last), ',');
    assert(split(render_range(last), ',') =~= seq![render_range(last)]);
    let one = seq![render_range(last)];
    assert(one[0] == render_range(last));
    assert(one.drop_first() =~= Seq::<Seq<char>>::empty());
    assert(parse_tokens(Seq::<Seq<char>>::empty()) == Ok::<Seq<Range<usize>>, SelectorError>(seq![]));
    assert(seq![last] + Seq::<Range<usize>>::empty() =~= seq![last]);
    assert(parse_tokens(one) == Ok::<Seq<Range<usize>>, SelectorError>(seq![last]));
    if l.len() == 1 {
        assert(seq![last] =~= l);
    } else {
        let init = l.drop_last();
        assert(valid_positions(init)) by {
            assert forall|i: int| 0 <= i < init.len() implies (#[trigger] init[i]).start
                < init[i].end by {
                assert(init[i] == l[i]);
            }
        }
        lemma_parse_format(init);
        lemma_split_concat(render_list(init), render_range(last), ',');
        lemma_parse_tokens_concat(split(render_list(init), ','), one);
        assert(init + seq![last] =~= l);
    }
}

} // verus!
