use vstd::prelude::*;
use vstd::string::*;

use crate::text::{decimal, pad_left, padded, to_decimal};

verus! {

broadcast use vstd::string::group_string_axioms;

/// Unicode `White_Space`, as `char::is_whitespace` decides it.
pub open spec fn is_space(c: char) -> bool {
    let u = c as u32;
    (9 <= u && u <= 13) || u == 32 || u == 0x85 || u == 0xA0 || u == 0x1680 || (0x2000 <= u && u
        <= 0x200A) || u == 0x2028 || u == 0x2029 || u == 0x202F || u == 0x205F || u == 0x3000
}

/// Whether `c` is white space.
pub fn is_whitespace(c: char) -> (r: bool)
    ensures
        r == is_space(c),
{
    let u = c as u32;
    (9 <= u && u <= 13) || u == 32 || u == 0x85 || u == 0xA0 || u == 0x1680 || (0x2000 <= u && u
        <= 0x200A) || u == 0x2028 || u == 0x2029 || u == 0x202F || u == 0x205F || u == 0x3000
}

/// Whether a word starts at the last character of `s`.
pub open spec fn ends_in_word_start(s: Seq<char>) -> bool {
    s.len() > 0 && !is_space(s.last()) && (s.len() == 1 || is_space(s[s.len() - 2]))
}

/// Number of words: maximal runs of non-space characters.
pub open spec fn word_count(s: Seq<char>) -> nat
    decreases s.len(),
{
    if s.len() == 0 {
        0
    } else {
        word_count(s.drop_last()) + if ends_in_word_start(s) {
            1nat
        } else {
            0nat
        }
    }
}

/// Number of newline characters.
pub open spec fn newline_count(s: Seq<char>) -> nat
    decreases s.len(),
{
    if s.len() == 0 {
        0
    } else {
        newline_count(s.drop_last()) + if s.last() == '\n' {
            1nat
        } else {
            0nat
        }
    }
}

/// Number of lines, a last one without its newline included.
pub open spec fn line_count(s: Seq<char>) -> nat {
    newline_count(s) + if s.len() > 0 && s.last() != '\n' {
        1nat
    } else {
        0nat
    }
}

/// Which counts to show.
#[derive(Debug)]
pub struct Config {
    pub files: Vec<String>,
    pub lines: bool,
    pub words: bool,
    pub bytes: bool,
    pub chars: bool,
}

impl Config {
    /// Keeps the chosen counts; when none is chosen, shows lines, words and bytes.
    pub fn new(files: Vec<String>, lines: bool, words: bool, bytes: bool, chars: bool) -> (r: Config)
        ensures
            r.files == files,
            r.chars == chars,
            !lines && !words && !bytes && !chars ==> r.lines && r.words && r.bytes,
            lines || words || bytes || chars ==> r.lines == lines && r.words == words && r.bytes
                == bytes,
    {
        if !lines && !words && !bytes && !chars {
            Config { files, lines: true, words: true, bytes: true, chars }
        } else {
            Config { files, lines, words, bytes, chars }
        }
    }
}

/// The counts of one input.
#[derive(Debug)]
pub struct Data {
    pub filename: String,
    pub lines: usize,
    pub words: usize,
    pub bytes: usize,
    pub chars: usize,
}

/// Counts the lines, words, characters and bytes of a whole input.
pub fn count(text: &str, filename: &str) -> (r: Data)
    ensures
        r.filename@ == filename@,
        r.lines == line_count(text@),
        r.words == word_count(text@),
        r.chars == text@.len(),
        r.bytes == text.spec_bytes().len() as usize,
{
    let mut lines: usize = 0;
    let mut words: usize = 0;
    let mut chars: usize = 0;
    let mut prev_space = true;
    let mut last_newline = false;
    let ghost s = text@;
    let n = text.unicode_len();
    for c in it: text.chars()
        invariant
            n == s.len(),
            it.seq() == s,
            chars == it.index(),
            chars <= s.len(),
            newline_count(s.take(chars as int)) == lines,
            lines <= chars,
            chars > 0 && !last_newline ==> lines < chars,
            word_count(s.take(chars as int)) == words,
            words <= chars,
            prev_space == (chars == 0 || is_space(s[chars - 1])),
            last_newline == (chars > 0 && s[chars - 1] == '\n'),
    {
        let ghost t = s.take(chars + 1);
        assert(t.drop_last() =~= s.take(chars as int));
        assert(t.last() == c);
        let space = is_whitespace(c);
        if !space && prev_space {
            words += 1;
        }
        if c == '\n' {
            lines += 1;
        }
        chars += 1;
        prev_space = space;
        last_newline = c == '\n';
    }
    assert(s.take(chars as int) =~= s);
    if chars > 0 && !last_newline {
        lines += 1;
    }
    Data {
        filename: String::from_str(filename),
        lines,
        words,
        bytes: text.len(),
        chars,
    }
}

/// Sum of one count over several inputs.
pub open spec fn sum_of(data: Seq<Data>, f: spec_fn(Data) -> nat) -> nat
    decreases data.len(),
{
    if data.len() == 0 {
        0
    } else {
        sum_of(data.drop_last(), f) + f(data.last())
    }
}

pub open spec fn lines_of(d: Data) -> nat {
    d.lines as nat
}

pub open spec fn words_of(d: Data) -> nat {
    d.words as nat
}

pub open spec fn bytes_of(d: Data) -> nat {
    d.bytes as nat
}

pub open spec fn chars_of(d: Data) -> nat {
    d.chars as nat
}

/// Whether every sum fits in `usize`.
pub open spec fn sums_fit(data: Seq<Data>) -> bool {
    sum_of(data, |d| lines_of(d)) <= usize::MAX && sum_of(data, |d| words_of(d)) <= usize::MAX
        && sum_of(data, |d| bytes_of(d)) <= usize::MAX && sum_of(data, |d| chars_of(d))
        <= usize::MAX
}

proof fn lemma_sum_grows(data: Seq<Data>, f: spec_fn(Data) -> nat, i: int)
    requires
        0 <= i <= data.len(),
    ensures
        sum_of(data.take(i), f) <= sum_of(data, f),
    decreases data.len() - i,
{
    if i < data.len() {
        lemma_sum_grows(data, f, i + 1);
        assert(data.take(i + 1).drop_last() =~= data.take(i));
    } else {
        assert(data.take(i) =~= data);
    }
}

/// The sums of several counts, named `total`; `None` when a sum does not fit.
pub fn total(data: &Vec<Data>) -> (r: Option<Data>)
    ensures
        r is None <==> !sums_fit(data@),
        r is Some ==> ({
            let t = r->Some_0;
            &&& t.filename@ == "total"@
            &&& t.lines == sum_of(data@, |d| lines_of(d))
            &&& t.words == sum_of(data@, |d| words_of(d))
            &&& t.bytes == sum_of(data@, |d| bytes_of(d))
            &&& t.chars == sum_of(data@, |d| chars_of(d))
        }),
{
    proof {
        reveal_strlit("total");
    }
    let mut sum = Data { filename: String::from_str("total"), lines: 0, words: 0, bytes: 0, chars: 0 };
    let mut i: usize = 0;
    assert(data@.take(0) =~= Seq::<Data>::empty());
    while i < data.len()
        invariant
            i <= data.len(),
            sum.filename@ == "total"@,
            sum.lines == sum_of(data@.take(i as int), |d| lines_of(d)),
            sum.words == sum_of(data@.take(i as int), |d| words_of(d)),
            sum.bytes == sum_of(data@.take(i as int), |d| bytes_of(d)),
            sum.chars == sum_of(data@.take(i as int), |d| chars_of(d)),
        decreases data.len() - i,
    {
        let d = &data[i];
        let ghost next = data@.take(i + 1);
        assert(next.drop_last() =~= data@.take(i as int));
        assert(next.last() == data@[i as int]);
        match (
            sum.lines.checked_add(d.lines),
            sum.words.checked_add(d.words),
            sum.bytes.checked_add(d.bytes),
            sum.chars.checked_add(d.chars),
        ) {
            (Some(l), Some(w), Some(b), Some(c)) => {
                sum.lines = l;
                sum.words = w;
                sum.bytes = b;
                sum.chars = c;
            },
            _ => {
                proof {
                    lemma_sum_grows(data@, |d| lines_of(d), i + 1);
                    lemma_sum_grows(data@, |d| words_of(d), i + 1);
                    lemma_sum_grows(data@, |d| bytes_of(d), i + 1);
                    lemma_sum_grows(data@, |d| chars_of(d), i + 1);
                }
                return None;
            },
        }
        i += 1;
    }
    assert(data@.take(data.len() as int) =~= data@);
    Some(sum)
}

/// The spec of one printed count: right-aligned in eight columns.
pub open spec fn column(n: usize) -> Seq<char> {
    padded(decimal(n as nat), 8)
}

pub open spec fn column_if(show: bool, n: usize) -> Seq<char> {
    if show {
        column(n)
    } else {
        seq![]
    }
}

/// The report line of one input: the shown counts in the order lines, words,
/// characters, bytes, then the name unless it is `-` (standard input).
pub open spec fn report(config: &Config, data: &Data) -> Seq<char> {
    column_if(config.lines, data.lines) + column_if(config.words, data.words) + column_if(
        config.chars,
        data.chars,
    ) + column_if(config.bytes, data.bytes) + if data.filename@ == "-"@ {
        seq![]
    } else {
        seq![' '] + data.filename@
    }
}

fn push_column(out: &mut String, show: bool, n: usize)
    ensures
        final(out)@ == old(out)@ + column_if(show, n),
{
    if show {
        let d = to_decimal(n);
        let p = pad_left(d.as_str(), 8);
        out.append(p.as_str());
    } else {
        assert(old(out)@ + seq![] =~= old(out)@);
    }
}

/// Formats the report line of one input.
pub fn print_data(config: &Config, data: &Data) -> (r: String)
    ensures
        r@ == report(config, data),
{
    proof {
        reveal_strlit("-");
        reveal_strlit(" ");
    }
    let mut out = String::new();
    push_column(&mut out, config.lines, data.lines);
    push_column(&mut out, config.words, data.words);
    push_column(&mut out, config.chars, data.chars);
    push_column(&mut out, config.bytes, data.bytes);
    let is_stdin = data.filename.as_str().unicode_len() == 1 && data.filename.as_str().get_char(0)
        == '-';
    assert(is_stdin == (data.filename@ == "-"@)) by {
        if is_stdin {
            assert(data.filename@ =~= "-"@);
        }
    }
    if !is_stdin {
        out.append(" ");
        out.append(data.filename.as_str());
    }
    assert(out@ =~= report(config, data));
    out
}

} // verus!
