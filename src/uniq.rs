use vstd::prelude::*;
use vstd::string::*;

use crate::selector::chars_of;
use crate::text::{decimal, pad_left, padded, to_decimal};
use crate::wc::{is_space, is_whitespace};

verus! {

/// `s` without its trailing white space (line terminator included).
pub open spec fn trim_end(s: Seq<char>) -> Seq<char>
    decreases s.len(),
{
    if s.len() > 0 && is_space(s.last()) {
        trim_end(s.drop_last())
    } else {
        s
    }
}

fn trimmed_len(v: &Vec<char>) -> (k: usize)
    ensures
        k <= v.len(),
        trim_end(v@) == v@.take(k as int),
{
    let mut k = v.len();
    assert(v@.take(k as int) =~= v@);
    while k > 0 && is_whitespace(v[k - 1])
        invariant
            k <= v.len(),
            trim_end(v@) == trim_end(v@.take(k as int)),
        decreases k,
    {
        assert(v@.take(k as int).drop_last() =~= v@.take(k - 1));
        k -= 1;
    }
    k
}

/// Whether two lines are the same once trailing white space is ignored.
pub fn same_line(a: &str, b: &str) -> (r: bool)
    ensures
        r == (trim_end(a@) == trim_end(b@)),
{
    let va = chars_of(a);
    let vb = chars_of(b);
    let ka = trimmed_len(&va);
    let kb = trimmed_len(&vb);
    if ka != kb {
        assert(va@.take(ka as int).len() != vb@.take(kb as int).len());
        return false;
    }
    let mut i: usize = 0;
    while i < ka
        invariant
            ka == kb,
            trim_end(a@) == va@.take(ka as int),
            trim_end(b@) == vb@.take(kb as int),
            ka <= va.len(),
            kb <= vb.len(),
            i <= ka,
            forall|m: int| 0 <= m < i ==> va@[m] == vb@[m],
        decreases ka - i,
    {
        if va[i] != vb[i] {
            assert(va@.take(ka as int)[i as int] != vb@.take(kb as int)[i as int]);
            assert(va@.take(ka as int) != vb@.take(kb as int));
            return false;
        }
        i += 1;
    }
    assert(va@.take(ka as int) =~= vb@.take(kb as int));
    true
}

/// Groups adjacent equal lines. It holds the line that opened the current
/// group and how many lines the group has.
#[derive(Debug)]
pub struct Uniq {
    pub last: String,
    pub count: usize,
}

impl Uniq {
    /// No group yet.
    pub fn new() -> (r: Uniq)
        ensures
            r.last@ == Seq::<char>::empty(),
            r.count == 0,
    {
        Uniq { last: String::new(), count: 0 }
    }

    /// Takes the next line. A line equal to the group's (trailing white space
    /// aside) joins it; any other starts a new group and hands back the
    /// finished one, if it has lines.
    pub fn push(&mut self, line: &str) -> (r: Option<(usize, String)>)
        ensures
            trim_end(line@) == trim_end(old(self).last@) ==> {
                &&& r is None
                &&& final(self).last@ == old(self).last@
                &&& final(self).count == if old(self).count < usize::MAX {
                    old(self).count + 1
                } else {
                    old(self).count as int
                }
            },
            trim_end(line@) != trim_end(old(self).last@) ==> {
                &&& final(self).last@ == line@
                &&& final(self).count == 1
                &&& (r is Some <==> old(self).count > 0)
                &&& r is Some ==> r->Some_0.0 == old(self).count && r->Some_0.1@ == old(self).last@
            },
    {
        if same_line(line, self.last.as_str()) {
            if self.count < usize::MAX {
                self.count += 1;
            }
            None
        } else {
            let done = if self.count > 0 {
                Some((self.count, self.last.clone()))
            } else {
                None
            };
            self.last = String::from_str(line);
            self.count = 1;
            done
        }
    }

    /// The group still open at the end of input, if it has lines.
    pub fn finish(&self) -> (r: Option<(usize, String)>)
        ensures
            r is Some <==> self.count > 0,
            r is Some ==> r->Some_0.0 == self.count && r->Some_0.1@ == self.last@,
    {
        if self.count > 0 {
            Some((self.count, self.last.clone()))
        } else {
            None
        }
    }
}

/// What is written for a group: the text, after its count right-aligned in
/// four columns and a space when counts are asked for.
pub open spec fn group_text(count: usize, text: Seq<char>, show_count: bool) -> Seq<char> {
    if show_count {
        padded(decimal(count as nat), 4) + seq![' '] + text
    } else {
        text
    }
}

/// Formats a finished group.
pub fn format_group(count: usize, text: &str, show_count: bool) -> (r: String)
    ensures
        r@ == group_text(count, text@, show_count),
{
    if show_count {
        proof {
            reveal_strlit(" ");
        }
        let d = to_decimal(count);
        let mut out = pad_left(d.as_str(), 4);
        out.append(" ");
        out.append(text);
        out
    } else {
        String::from_str(text)
    }
}

} // verus!
