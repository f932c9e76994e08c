//! The command-line front end's handler and the templates it fills in.
use vstd::prelude::*;
use crate::text::{chars_of, string_of};

verus! {

/// Handles the commands of the `nova` command line.
pub struct CliHandler;

impl CliHandler {
    pub fn new() -> (h: Self) {
        CliHandler
    }
}

/// `s` with every occurrence of `pat` replaced by `by`, the occurrences taken
/// from the left and not overlapping (an empty `pat` leaves `s` as it is).
pub open spec fn replaced(s: Seq<char>, pat: Seq<char>, by: Seq<char>) -> Seq<char>
    decreases s.len(),
{
    if pat.len() == 0 || s.len() == 0 {
        s
    } else if s.len() >= pat.len() && s.subrange(0, pat.len() as int) == pat {
        by + replaced(s.subrange(pat.len() as int, s.len() as int), pat, by)
    } else {
        seq![s[0]] + replaced(s.drop_first(), pat, by)
    }
}

/// Whether `pat` occurs in `t` at `i`.
fn occurs_at(t: &Vec<char>, i: usize, pat: &Vec<char>) -> (b: bool)
    requires
        i <= t@.len(),
    ensures
        b == (t@.len() - i >= pat@.len() && t@.subrange(i as int, i + pat@.len()) == pat@),
{
    let tl = t.len();
    if tl - i < pat.len() {
        return false;
    }
    let mut j: usize = 0;
    while j < pat.len()
        invariant
            j <= pat@.len(),
            i + pat@.len() <= t@.len(),
            t@.len() == tl,
            forall|q: int| 0 <= q < j ==> t@[i + q] == pat@[q],
        decreases pat@.len() - j,
    {
        if t[i + j] != pat[j] {
            assert(t@.subrange(i as int, i + pat@.len())[j as int] != pat@[j as int]);
            return false;
        }
        j = j + 1;
    }
    assert(t@.subrange(i as int, i + pat@.len()) =~= pat@);
    true
}

/// A template with every occurrence of `placeholder` replaced by `value`.
pub fn fill_template(template: &str, placeholder: &str, value: &str) -> (r: String)
    requires
        placeholder@.len() > 0,
    ensures
        r@ == replaced(template@, placeholder@, value@),
{
    let t = chars_of(template);
    let p = chars_of(placeholder);
    let v = chars_of(value);
    let mut out: Vec<char> = Vec::new();
    let mut i: usize = 0;
    let n = t.len();
    proof {
        assert(t@.subrange(0, n as int) =~= t@);
    }
    while i < n
        invariant
            i <= n,
            n == t@.len(),
            p@.len() > 0,
            out@ + replaced(t@.subrange(i as int, n as int), p@, v@) == replaced(t@, p@, v@),
        decreases n - i,
    {
        let rest = Ghost(t@.subrange(i as int, n as int));
        if occurs_at(&t, i, &p) {
            proof {
                assert(rest@.subrange(0, p@.len() as int) =~= t@.subrange(i as int, i + p@.len()));
                assert(rest@.subrange(p@.len() as int, rest@.len() as int) =~= t@.subrange(i + p@.len(), n as int));
            }
            let ghost before = out@;
            let mut k: usize = 0;
            while k < v.len()
                invariant
                    k <= v@.len(),
                    out@ == before + v@.subrange(0, k as int),
                decreases v@.len() - k,
            {
                out.push(v[k]);
                k = k + 1;
                assert(out@ =~= before + v@.subrange(0, k as int));
            }
            proof {
                assert(v@.subrange(0, v@.len() as int) =~= v@);
                assert(before + (v@ + replaced(t@.subrange(i + p@.len(), n as int), p@, v@)) =~= out@ + replaced(
                    t@.subrange(i + p@.len(), n as int),
                    p@,
                    v@,
                ));
            }
            i = i + p.len();
        } else {
            proof {
                if rest@.len() >= p@.len() {
                    assert(rest@.subrange(0, p@.len() as int) =~= t@.subrange(i as int, i + p@.len()));
                }
                assert(rest@.drop_first() =~= t@.subrange(i + 1, n as int));
                assert(out@ + (seq![t@[i as int]] + replaced(t@.subrange(i + 1, n as int), p@, v@)) =~= out@.push(
                    t@[i as int],
                ) + replaced(t@.subrange(i + 1, n as int), p@, v@));
            }
            out.push(t[i]);
            i = i + 1;
        }
    }
    proof {
        assert(t@.subrange(n as int, n as int) =~= Seq::<char>::empty());
        assert(out@ + Seq::<char>::empty() =~= out@);
    }
    string_of(&out)
}

} // verus!
