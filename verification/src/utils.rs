//! Helpers that the days share: where an input lies, and cutting a string into
//! pieces of one length.

use crate::text::line_views;
use vstd::prelude::*;
use vstd::string::StrSliceExecFns;

verus! {

/// The file that holds an input. Reading it is left to the caller, who hands
/// the lines to the day they are for.
pub struct FileReader(pub String);

impl FileReader {
    pub fn new(filepath: &str) -> (r: Self)
        ensures
            r.0@ == filepath@,
    {
        Self(filepath.to_owned())
    }

    /// The path of the file.
    pub fn path(&self) -> (p: &String)
        ensures
            p@ == self.0@,
    {
        &self.0
    }
}

/// The pieces of `s` of `sub_length` characters each, from the left; the last
/// piece holds what is left over and may be shorter. With a length of zero the
/// text is not cut at all.
pub open spec fn chunks(s: Seq<char>, sub_length: nat) -> Seq<Seq<char>>
    decreases s.len(),
{
    if sub_length == 0 {
        seq![s]
    } else if s.len() == 0 {
        Seq::empty()
    } else if s.len() <= sub_length {
        seq![s]
    } else {
        seq![s.take(sub_length as int)] + chunks(s.skip(sub_length as int), sub_length)
    }
}

/// All the texts of `parts` are the same.
pub open spec fn all_same(parts: Seq<Seq<char>>) -> bool {
    forall|i: int| 0 <= i < parts.len() ==> #[trigger] parts[i] == parts[0]
}

pub struct StringUtils;

impl StringUtils {
    /// Cuts `s` into pieces of `sub_length` characters.
    pub fn partition_by(s: String, sub_length: usize) -> (parts: Vec<String>)
        ensures
            line_views(parts@) == chunks(s@, sub_length as nat),
    {
        let mut parts: Vec<String> = Vec::new();
        if sub_length == 0 {
            parts.push(s);
            assert(line_views(parts@) == seq![s@]);
            return parts;
        }
        let text: &str = s.as_str();
        let n: usize = text.unicode_len();
        let mut start: usize = 0;
        assert(s@.skip(0) == s@);
        assert(line_views(parts@) + chunks(s@.skip(0), sub_length as nat) == chunks(
            s@,
            sub_length as nat,
        ));
        while start < n
            invariant
                start <= n,
                n == s@.len(),
                text@ == s@,
                sub_length > 0,
                line_views(parts@) + chunks(s@.skip(start as int), sub_length as nat) == chunks(
                    s@,
                    sub_length as nat,
                ),
            decreases n - start,
        {
            let end: usize = if n - start <= sub_length {
                n
            } else {
                start + sub_length
            };
            let piece: String = text.substring_char(start, end).to_owned();
            proof {
                let rest = s@.skip(start as int);
                assert(line_views(parts@.push(piece)) == line_views(parts@) + seq![piece@]);
                if n - start <= sub_length {
                    assert(piece@ == rest);
                    assert(s@.skip(end as int).len() == 0);
                    assert(chunks(rest, sub_length as nat) == seq![rest] + chunks(
                        s@.skip(end as int),
                        sub_length as nat,
                    ));
                } else {
                    assert(piece@ == rest.take(sub_length as int));
                    assert(rest.skip(sub_length as int) == s@.skip(end as int));
                }
            }
            parts.push(piece);
            start = end;
        }
        assert(chunks(s@.skip(start as int), sub_length as nat) == Seq::<Seq<char>>::empty());
        parts
    }

    /// Whether all the strings are the same.
    pub fn all_equal(parts: Vec<String>) -> (r: bool)
        ensures
            r == all_same(line_views(parts@)),
    {
        if parts.len() <= 1 {
            return true;
        }
        let ghost texts = line_views(parts@);
        let mut idx: usize = 1;
        while idx < parts.len()
            invariant
                1 <= idx <= parts.len(),
                texts == line_views(parts@),
                forall|i: int| 0 <= i < idx ==> #[trigger] texts[i] == texts[0],
            decreases parts.len() - idx,
        {
            if !(parts[idx] == parts[0]) {
                assert(texts[idx as int] != texts[0]);
                return false;
            }
            idx += 1;
        }
        true
    }
}

} // verus!
