//! Small string utilities shared by the codec.

use vstd::prelude::*;
#[allow(unused_imports)]
use vstd::string::{StrSliceExecFns, StringExecFns};

use crate::name::spec_join_parts;

verus! {

/// Joining one more part appends a dot and the part, except to an
/// empty list of parts.
pub proof fn lemma_join_push(parts: Seq<Seq<char>>, part: Seq<char>)
    ensures
        parts.len() == 0 ==> spec_join_parts(parts.push(part)) == part,
        parts.len() > 0 ==> spec_join_parts(parts.push(part)) == spec_join_parts(parts)
            + seq!['.'] + part,
    decreases parts.len(),
{
    if parts.len() == 0 {
        assert(parts.push(part) =~= seq![part]);
    } else if parts.len() == 1 {
        assert(parts.push(part).drop_first() =~= seq![part]);
        assert(spec_join_parts(seq![part]) == part);
    } else {
        assert(parts.push(part).drop_first() =~= parts.drop_first().push(part));
        lemma_join_push(parts.drop_first(), part);
    }
}

/// Whether `suffix` ends `s`, character for character.
pub open spec fn spec_ends_with(s: Seq<char>, suffix: Seq<char>) -> bool {
    suffix.len() <= s.len() && s.skip(s.len() - suffix.len()) == suffix
}

/// Whether the string ends with the given suffix.
#[verifier::loop_isolation(false)]
pub fn ends_with(s: &str, suffix: &str) -> (r: bool)
    ensures
        r == spec_ends_with(s@, suffix@),
{
    let n = s.unicode_len();
    let m = suffix.unicode_len();
    if m > n {
        proof {
            assert(!spec_ends_with(s@, suffix@));
        }
        return false;
    }
    let mut i: usize = 0;
    while i < m
        invariant
            i <= m,
            forall|k: int| 0 <= k < i ==> s@[n - m + k] == suffix@[k],
        decreases m - i,
    {
        if s.get_char(n - m + i) != suffix.get_char(i) {
            proof {
                assert(s@.skip(n - m)[i as int] != suffix@[i as int]);
            }
            return false;
        }
        i = i + 1;
    }
    proof {
        assert(s@.skip(n - m) =~= suffix@);
    }
    true
}

/// Joins the given parts with single dots: the dotted form of a list
/// of labels, where an empty list gives the empty string.
pub fn isperse(input: Vec<String>) -> (r: String)
    ensures
        r@ == spec_join_parts(Seq::new(input@.len(), |i: int| input@[i]@)),
{
    let ghost parts = Seq::new(input@.len(), |i: int| input@[i]@);
    proof {
        reveal_strlit(".");
    }
    let mut acc = String::new();
    let mut i: usize = 0;
    while i < input.len()
        invariant
            i <= input@.len(),
            parts == Seq::new(input@.len(), |j: int| input@[j]@),
            acc@ == spec_join_parts(parts.take(i as int)),
        decreases input@.len() - i,
    {
        if i > 0 {
            proof {
                reveal_strlit(".");
            }
            acc.append(".");
            assert("."@ =~= seq!['.']);
        }
        acc.append(input[i].as_str());
        proof {
            lemma_join_push(parts.take(i as int), parts[i as int]);
            assert(parts.take(i + 1) =~= parts.take(i as int).push(parts[i as int]));
        }
        i = i + 1;
    }
    proof {
        assert(parts.take(input@.len() as int) =~= parts);
    }
    acc
}

} // verus!
