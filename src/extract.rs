use std::ops::Range;
use vstd::prelude::*;
use vstd::string::*;
use vstd::utf8::{decode_utf8, valid_utf8};

use crate::selector::{error_message, parse_pos, parse_selector, PositionList, SelectorError};
use crate::text::{index_of, lemma_index_of, lemma_index_of_facts, split};

verus! {

/// What a record is cut by, each with its parsed positions.
#[derive(Debug)]
pub enum Extract {
    Fields(PositionList),
    Bytes(PositionList),
    Chars(PositionList),
}

/// End of `r` once cut down to `0..len`.
pub open spec fn clamp_end(r: Range<usize>, len: nat) -> int {
    if r.end < len {
        r.end as int
    } else {
        len as int
    }
}

/// Start of `r` once cut down to `0..len`; never past the end.
pub open spec fn clamp_start(r: Range<usize>, len: nat) -> int {
    if r.start < clamp_end(r, len) {
        r.start as int
    } else {
        clamp_end(r, len)
    }
}

/// The items of `r` that exist; none when `r` lies past the end.
pub open spec fn clamped<T>(items: Seq<T>, r: Range<usize>) -> Seq<T> {
    items.subrange(clamp_start(r, items.len()), clamp_end(r, items.len()))
}

/// The items picked by each range in turn, repeats and overlaps kept.
pub open spec fn select<T>(items: Seq<T>, ranges: Seq<Range<usize>>) -> Seq<T>
    decreases ranges.len(),
{
    if ranges.len() == 0 {
        seq![]
    } else {
        select(items, ranges.drop_last()) + clamped(items, ranges.last())
    }
}

/// The fields put back together with `d` between neighbours.
pub open spec fn join(fs: Seq<Seq<u8>>, d: u8) -> Seq<u8>
    decreases fs.len(),
{
    if fs.len() == 0 {
        seq![]
    } else if fs.len() == 1 {
        fs[0]
    } else {
        join(fs.drop_last(), d) + seq![d] + fs.last()
    }
}

/// The bytes of the selected fields of `bytes`, split and rejoined on `d`.
pub open spec fn cut_fields(bytes: Seq<u8>, d: u8, ranges: Seq<Range<usize>>) -> Seq<u8> {
    join(select(split(bytes, d), ranges), d)
}

/// What fields mode gives for a record: the record itself when it holds no
/// delimiter, else the selected fields, decoded.
pub open spec fn fields_of(line: &str, d: u8, ranges: Seq<Range<usize>>) -> Seq<char> {
    if line.spec_bytes().contains(d) {
        lossy_utf8(cut_fields(line.spec_bytes(), d, ranges))
    } else {
        line@
    }
}

/// The text that a permissive UTF-8 decode gives for some bytes.
pub uninterp spec fn lossy_utf8(b: Seq<u8>) -> Seq<char>;

/// Relies on `String::from_utf8_lossy`: the result depends on the bytes alone,
/// and well-formed UTF-8 is decoded as it stands.
#[verifier::external_body]
fn decode_lossy(b: &Vec<u8>) -> (r: String)
    ensures
        r@ == lossy_utf8(b@),
        valid_utf8(b@) ==> r@ == decode_utf8(b@),
{
    String::from_utf8_lossy(b).into_owned()
}

fn push_slice(out: &mut Vec<u8>, b: &[u8], s: usize, e: usize)
    requires
        s <= e <= b@.len(),
    ensures
        final(out)@ == old(out)@ + b@.subrange(s as int, e as int),
{
    let mut k = s;
    while k < e
        invariant
            s <= k <= e <= b@.len(),
            out@ == old(out)@ + b@.subrange(s as int, k as int),
        decreases e - k,
    {
        out.push(b[k]);
        k += 1;
        assert(out@ =~= old(out)@ + b@.subrange(s as int, k as int));
    }
}

proof fn lemma_select_step<T>(items: Seq<T>, ranges: Seq<Range<usize>>, i: int)
    requires
        0 <= i < ranges.len(),
    ensures
        select(items, ranges.take(i + 1)) == select(items, ranges.take(i)) + clamped(
            items,
            ranges[i],
        ),
{
    assert(ranges.take(i + 1).drop_last() =~= ranges.take(i));
}

/// Picks the characters (Unicode scalar values) at the selected positions.
pub fn extract_chars(line: &str, pos: &PositionList) -> (r: String)
    ensures
        r@ == select(line@, pos@),
{
    let n = line.unicode_len();
    let mut out = String::new();
    let mut i: usize = 0;
    assert(out@ =~= select(line@, pos@.take(0)));
    while i < pos.len()
        invariant
            n == line@.len(),
            i <= pos.len(),
            out@ == select(line@, pos@.take(i as int)),
        decreases pos.len() - i,
    {
        let e = if pos[i].end < n {
            pos[i].end
        } else {
            n
        };
        let s = if pos[i].start < e {
            pos[i].start
        } else {
            e
        };
        out.append(line.substring_char(s, e));
        proof {
            lemma_select_step(line@, pos@, i as int);
        }
        i += 1;
    }
    assert(pos@.take(pos.len() as int) =~= pos@);
    out
}

/// Picks the bytes at the selected positions and decodes them permissively.
pub fn extract_bytes(line: &str, pos: &PositionList) -> (r: String)
    ensures
        r@ == lossy_utf8(select(line.spec_bytes(), pos@)),
{
    let b = line.as_bytes();
    let n = b.len();
    let mut out: Vec<u8> = Vec::new();
    let mut i: usize = 0;
    assert(out@ =~= select(b@, pos@.take(0)));
    while i < pos.len()
        invariant
            n == b@.len(),
            b@ == line.spec_bytes(),
            i <= pos.len(),
            out@ == select(b@, pos@.take(i as int)),
        decreases pos.len() - i,
    {
        let e = if pos[i].end < n {
            pos[i].end
        } else {
            n
        };
        let s = if pos[i].start < e {
            pos[i].start
        } else {
            e
        };
        push_slice(&mut out, b, s, e);
        proof {
            lemma_select_step(b@, pos@, i as int);
        }
        i += 1;
    }
    assert(pos@.take(pos.len() as int) =~= pos@);
    decode_lossy(&out)
}

/// First index of `d` in `b[from..]`, or `b.len()`.
fn find_byte(b: &[u8], from: usize, d: u8) -> (r: usize)
    requires
        from <= b@.len(),
    ensures
        from <= r <= b@.len(),
        r - from == index_of(b@.skip(from as int), d),
{
    let mut i = from;
    while i < b.len() && b[i] != d
        invariant
            from <= i <= b@.len(),
            forall|m: int| from <= m < i ==> b@[m] != d,
        decreases b@.len() - i,
    {
        i += 1;
    }
    proof {
        let t = b@.skip(from as int);
        assert forall|m: int| 0 <= m < i - from implies t[m] != d by {
            assert(b@[from + m] != d);
        }
        lemma_index_of(t, d, i - from);
    }
    i
}

/// Field `k` of `fs` is `b[starts[k]..ends[k]]`.
pub open spec fn field_at(b: Seq<u8>, starts: Seq<usize>, ends: Seq<usize>, fs: Seq<Seq<u8>>, k: int) -> bool {
    starts[k] <= ends[k] <= b.len() && fs[k] == b.subrange(starts[k] as int, ends[k] as int)
}

/// Where each field of `b` split on `d` starts and ends.
fn field_bounds(b: &[u8], d: u8) -> (r: (Vec<usize>, Vec<usize>))
    ensures
        r.0.len() == split(b@, d).len(),
        r.1.len() == split(b@, d).len(),
        forall|k: int| 0 <= k < r.0.len() ==> #[trigger] field_at(b@, r.0@, r.1@, split(b@, d), k),
{
    let n = b.len();
    let mut starts: Vec<usize> = Vec::new();
    let mut ends: Vec<usize> = Vec::new();
    let ghost mut done: Seq<Seq<u8>> = seq![];
    let mut start: usize = 0;
    assert(b@.skip(0) =~= b@);
    loop
        invariant
            start <= n == b@.len(),
            split(b@, d) == done + split(b@.skip(start as int), d),
            starts.len() == done.len(),
            ends.len() == done.len(),
            forall|k: int| 0 <= k < done.len() ==> #[trigger] field_at(b@, starts@, ends@, done, k),
        decreases n - start,
    {
        let j = find_byte(b, start, d);
        let ghost t = b@.skip(start as int);
        let ghost tok = b@.subrange(start as int, j as int);
        assert(t.take(j - start) =~= tok);
        let ghost old_done = done;
        let ghost old_starts = starts@;
        let ghost old_ends = ends@;
        starts.push(start);
        ends.push(j);
        proof {
            done = done.push(tok);
            assert forall|k: int| 0 <= k < done.len() implies #[trigger] field_at(b@, starts@, ends@, done, k) by {
                if k < old_done.len() {
                    assert(field_at(b@, old_starts, old_ends, old_done, k));
                    assert(old_done[k] == done[k]);
                    assert(old_starts[k] == starts@[k]);
                    assert(old_ends[k] == ends@[k]);
                } else {
                    assert(starts@[k] == start);
                    assert(ends@[k] == j);
                }
            }
        }
        if j == n {
            proof {
                assert(tok =~= t);
                assert(split(t, d) == seq![t]);
                assert(split(b@, d) =~= done);
            }
            return (starts, ends);
        }
        proof {
            assert(t.skip(j - start + 1) =~= b@.skip(j + 1));
            assert(split(t, d) == seq![tok] + split(b@.skip(j + 1), d));
            assert(old_done + (seq![tok] + split(b@.skip(j + 1), d)) =~= done + split(
                b@.skip(j + 1),
                d,
            ));
        }
        start = j + 1;
    }
}

proof fn lemma_join_push(fs: Seq<Seq<u8>>, f: Seq<u8>, d: u8)
    ensures
        join(fs.push(f), d) == if fs.len() == 0 {
            f
        } else {
            join(fs, d) + seq![d] + f
        },
{
    assert(fs.push(f).drop_last() =~= fs);
}

/// Picks the fields at the selected positions, splitting the record on the
/// delimiter byte and joining the picked fields with it. A record without
/// the delimiter comes back unchanged.
pub fn extract_fields(line: &str, pos: &PositionList, delimiter: u8) -> (r: String)
    ensures
        r@ == fields_of(line, delimiter, pos@),
        !line.spec_bytes().contains(delimiter) ==> r@ == line@,
{
    let b = line.as_bytes();
    let n = b.len();
    let first = find_byte(b, 0, delimiter);
    proof {
        assert(b@.skip(0) =~= b@);
        lemma_index_of_facts(b@, delimiter);
    }
    if first == n {
        return String::from_str(line);
    }
    let ghost fields = split(b@, delimiter);
    let (starts, ends) = field_bounds(b, delimiter);
    let nf = starts.len();
    let mut out: Vec<u8> = Vec::new();
    let mut any = false;
    let ghost mut sel: Seq<Seq<u8>> = seq![];
    let mut i: usize = 0;
    assert(sel =~= select(fields, pos@.take(0)));
    while i < pos.len()
        invariant
            n == b@.len(),
            b@ == line.spec_bytes(),
            fields == split(b@, delimiter),
            nf == fields.len(),
            starts.len() == nf,
            ends.len() == nf,
            forall|k: int| 0 <= k < nf ==> #[trigger] field_at(b@, starts@, ends@, fields, k),
            i <= pos.len(),
            sel == select(fields, pos@.take(i as int)),
            out@ == join(sel, delimiter),
            any == (sel.len() > 0),
        decreases pos.len() - i,
    {
        let e = if pos[i].end < nf {
            pos[i].end
        } else {
            nf
        };
        let s = if pos[i].start < e {
            pos[i].start
        } else {
            e
        };
        let ghost before = sel;
        let mut k = s;
        while k < e
            invariant
                s <= k <= e <= nf,
                n == b@.len(),
                fields.len() == nf,
                starts.len() == nf,
                ends.len() == nf,
                forall|k: int| 0 <= k < nf ==> #[trigger] field_at(b@, starts@, ends@, fields, k),
                sel == before + fields.subrange(s as int, k as int),
                out@ == join(sel, delimiter),
                any == (sel.len() > 0),
            decreases e - k,
        {
            proof {
                lemma_join_push(sel, fields[k as int], delimiter);
            }
            if any {
                out.push(delimiter);
            }
            assert(field_at(b@, starts@, ends@, fields, k as int));
            push_slice(&mut out, b, starts[k], ends[k]);
            proof {
                if !any {
                    assert(out@ =~= fields[k as int]);
                }
                sel = sel.push(fields[k as int]);
                assert(sel =~= before + fields.subrange(s as int, k + 1));
            }
            any = true;
            k += 1;
        }
        proof {
            lemma_select_step(fields, pos@, i as int);
        }
        i += 1;
    }
    assert(pos@.take(pos.len() as int) =~= pos@);
    decode_lossy(&out)
}

/// Cuts one record (without its line terminator) as `mode` says; the
/// delimiter matters in fields mode only.
pub fn extract(line: &str, mode: &Extract, delimiter: u8) -> (r: String)
    ensures
        match mode {
            Extract::Fields(p) => r@ == fields_of(line, delimiter, p@),
            Extract::Bytes(p) => r@ == lossy_utf8(select(line.spec_bytes(), p@)),
            Extract::Chars(p) => r@ == select(line@, p@),
        },
{
    match mode {
        Extract::Fields(p) => extract_fields(line, p, delimiter),
        Extract::Bytes(p) => extract_bytes(line, p),
        Extract::Chars(p) => extract_chars(line, p),
    }
}

/// The message for a delimiter that is not one byte.
pub open spec fn delimiter_message(s: Seq<char>) -> Seq<char> {
    "--delim \""@ + s + "\" must be a single byte"@
}

/// Reads the field delimiter, which must be exactly one byte.
pub fn parse_delimiter(s: &str) -> (r: Result<u8, String>)
    ensures
        r is Ok <==> s.spec_bytes().len() == 1,
        r is Ok ==> r->Ok_0 == s.spec_bytes()[0],
        r is Err ==> r->Err_0@ == delimiter_message(s@),
{
    let b = s.as_bytes();
    if b.len() == 1 {
        Ok(b[0])
    } else {
        let mut m = String::from_str("--delim \"");
        m.append(s);
        m.append("\" must be a single byte");
        Err(m)
    }
}

/// A mode as a number (0 fields, 1 bytes, 2 chars) and its positions.
pub open spec fn mode_view(e: &Extract) -> (nat, Seq<Range<usize>>) {
    match e {
        Extract::Fields(p) => (0, p@),
        Extract::Bytes(p) => (1, p@),
        Extract::Chars(p) => (2, p@),
    }
}

pub open spec fn opt_view(o: Option<&str>) -> Option<Seq<char>> {
    match o {
        Some(s) => Some(s@),
        None => None,
    }
}

/// An optional selector, parsed.
pub open spec fn opt_parse(o: Option<Seq<char>>) -> Result<Option<Seq<Range<usize>>>, SelectorError> {
    match o {
        None => Ok(None),
        Some(s) => match parse_selector(s) {
            Ok(l) => Ok(Some(l)),
            Err(e) => Err(e),
        },
    }
}

pub open spec fn missing_mode_message() -> Seq<char> {
    "Must have --fields, --bytes, or --chars"@
}

/// The mode that the options give: every given selector is parsed (fields,
/// then bytes, then chars; the first error wins), then fields are preferred
/// to bytes and bytes to chars.
pub open spec fn chosen_mode(f: Option<Seq<char>>, b: Option<Seq<char>>, c: Option<Seq<char>>) -> Result<
    (nat, Seq<Range<usize>>),
    Seq<char>,
> {
    match (opt_parse(f), opt_parse(b), opt_parse(c)) {
        (Err(e), _, _) => Err(error_message(e)),
        (Ok(_), Err(e), _) => Err(error_message(e)),
        (Ok(_), Ok(_), Err(e)) => Err(error_message(e)),
        (Ok(Some(p)), _, _) => Ok((0, p)),
        (Ok(None), Ok(Some(p)), _) => Ok((1, p)),
        (Ok(None), Ok(None), Ok(Some(p))) => Ok((2, p)),
        _ => Err(missing_mode_message()),
    }
}

fn parse_opt(o: Option<&str>) -> (r: Result<Option<PositionList>, String>)
    ensures
        match (r, opt_parse(opt_view(o))) {
            (Ok(Some(p)), Ok(Some(l))) => p@ == l,
            (Ok(None), Ok(None)) => true,
            (Err(m), Err(e)) => m@ == error_message(e),
            _ => false,
        },
{
    match o {
        None => Ok(None),
        Some(s) => match parse_pos(s) {
            Ok(p) => Ok(Some(p)),
            Err(e) => Err(e.to_string()),
        },
    }
}

/// Picks the extract mode from the `--fields`, `--bytes` and `--chars` options.
pub fn choose_mode(fields: Option<&str>, bytes: Option<&str>, chars: Option<&str>) -> (r: Result<
    Extract,
    String,
>)
    ensures
        r is Ok <==> chosen_mode(opt_view(fields), opt_view(bytes), opt_view(chars)) is Ok,
        r is Ok ==> mode_view(&r->Ok_0) == chosen_mode(opt_view(fields), opt_view(bytes), opt_view(chars))->Ok_0,
        r is Err ==> r->Err_0@ == chosen_mode(opt_view(fields), opt_view(bytes), opt_view(chars))->Err_0,
{
    proof {
        reveal_strlit("Must have --fields, --bytes, or --chars");
    }
    let f = match parse_opt(fields) {
        Ok(f) => f,
        Err(m) => return Err(m),
    };
    let b = match parse_opt(bytes) {
        Ok(b) => b,
        Err(m) => return Err(m),
    };
    let c = match parse_opt(chars) {
        Ok(c) => c,
        Err(m) => return Err(m),
    };
    match (f, b, c) {
        (Some(p), _, _) => Ok(Extract::Fields(p)),
        (None, Some(p), _) => Ok(Extract::Bytes(p)),
        (None, None, Some(p)) => Ok(Extract::Chars(p)),
        _ => Err(String::from_str("Must have --fields, --bytes, or --chars")),
    }
}

} // verus!
