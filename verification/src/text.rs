//! Putting rendered elements together into one string.

use vstd::prelude::*;
use vstd::string::StringExecFns;

verus! {

/// `parts` one behind the other, with `separator` between each two of them.
pub open spec fn joined(parts: Seq<Seq<char>>, separator: Seq<char>) -> Seq<char>
    decreases parts.len(),
{
    if parts.len() == 0 {
        Seq::empty()
    } else if parts.len() == 1 {
        parts[0]
    } else {
        joined(parts.drop_last(), separator) + separator + parts.last()
    }
}

/// What each of `texts` holds, in the same order.
pub open spec fn contents(texts: Seq<String>) -> Seq<Seq<char>> {
    texts.map_values(|t: String| t@)
}

/// Joins `texts` with `separator` between each two of them.
pub fn join_texts(texts: &Vec<String>, separator: &str) -> (r: String)
    ensures
        r@ == joined(contents(texts@), separator@),
{
    let mut out = String::new();
    let n = texts.len();
    let mut i: usize = 0;
    while i < n
        invariant
            n == texts@.len(),
            i <= n,
            out@ == joined(contents(texts@).take(i as int), separator@),
        decreases n - i,
    {
        proof {
            let parts = contents(texts@);
            assert(parts.take(i + 1).drop_last() == parts.take(i as int));
            assert(parts.take(i + 1).last() == texts@[i as int]@);
            if i == 0 {
                assert(out@ + texts@[0]@ == texts@[0]@);
            }
        }
        if i > 0 {
            out.append(separator);
        }
        out.append(texts[i].as_str());
        i += 1;
    }
    proof {
        assert(contents(texts@).take(n as int) == contents(texts@));
    }
    out
}

} // verus!
