//! File-name helpers.
use vstd::prelude::*;
use vstd::string::StrSliceExecFns;

use crate::text::chars_of;

verus! {

/// The position of the last `.` in `s`, or -1 when there is none.
pub open spec fn last_dot(s: Seq<char>) -> int
    decreases s.len(),
{
    if s.len() == 0 {
        -1
    } else if s.last() == '.' {
        s.len() - 1
    } else {
        last_dot(s.drop_last())
    }
}

proof fn lemma_last_dot(s: Seq<char>, i: int)
    requires
        0 <= i <= s.len(),
        forall|j: int| i <= j < s.len() ==> s[j] != '.',
        i > 0 ==> s[i - 1] == '.',
    ensures
        last_dot(s) == i - 1,
    decreases s.len(),
{
    if s.len() > i {
        lemma_last_dot(s.drop_last(), i);
    } else if s.len() > 0 && i == 0 {
        lemma_last_dot(s.drop_last(), 0);
    }
}

/// What follows the last `.` of `filename`; the whole name when it has no
/// `.`.
pub fn get_extension(filename: &str) -> (r: &str)
    ensures
        r@ == filename@.subrange(last_dot(filename@) + 1, filename@.len() as int),
{
    let v = chars_of(filename);
    let mut i: usize = v.len();
    while i > 0 && v[i - 1] != '.'
        invariant
            i <= v@.len(),
            v@ == filename@,
            forall|j: int| i <= j < v@.len() ==> v@[j] != '.',
        decreases i,
    {
        i = i - 1;
    }
    proof {
        lemma_last_dot(v@, i as int);
    }
    filename.substring_char(i, v.len())
}

} // verus!
