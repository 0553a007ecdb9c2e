//! Character-sequence helpers shared by the two text grammars: the end of
//! a run of characters satisfying a predicate, and verified string
//! equality by characters.

use vstd::prelude::*;

verus! {

use vstd::string::StrSliceExecFns;

/// The end of the run of characters satisfying `pred` that starts at
/// `from`: the first position at or after `from` where `pred` fails, or
/// the end of the sequence.
pub open spec fn run_end(s: Seq<char>, from: nat, pred: spec_fn(char) -> bool) -> nat
    decreases s.len() - from,
{
    if from < s.len() && pred(s[from as int]) {
        run_end(s, (from + 1) as nat, pred)
    } else {
        from
    }
}

/// Everything `run_end` promises: it stays within bounds, every character
/// of the run satisfies the predicate, and the character that ends the
/// run (if any) does not.
pub proof fn lemma_run_end(s: Seq<char>, from: nat, pred: spec_fn(char) -> bool)
    requires
        from <= s.len(),
    ensures
        from <= run_end(s, from, pred) <= s.len(),
        forall|k: int| from <= k < run_end(s, from, pred) ==> pred(s[k]),
        run_end(s, from, pred) < s.len() ==> !pred(s[run_end(s, from, pred) as int]),
    decreases s.len() - from,
{
    if from < s.len() && pred(s[from as int]) {
        lemma_run_end(s, (from + 1) as nat, pred);
    }
}

/// A position bounded as `run_end` describes, whose run satisfies the
/// predicate throughout and ends where the predicate fails, is the run's end.
pub proof fn lemma_run_end_exact(s: Seq<char>, from: nat, e: nat, pred: spec_fn(char) -> bool)
    requires
        from <= e <= s.len(),
        forall|k: int| from <= k < e ==> pred(s[k]),
        e < s.len() ==> !pred(s[e as int]),
    ensures
        run_end(s, from, pred) == e,
    decreases e - from,
{
    if from < e {
        lemma_run_end_exact(s, (from + 1) as nat, e, pred);
    }
}

/// String equality decided character by character.
pub fn str_eq(a: &str, b: &str) -> (r: bool)
    ensures
        r == (a@ == b@),
{
    let la = a.unicode_len();
    let lb = b.unicode_len();
    if la != lb {
        return false;
    }
    let mut i: usize = 0;
    while i < la
        invariant
            i <= la,
            la == a@.len(),
            la == b@.len(),
            forall|j: int| 0 <= j < i ==> a@[j] == b@[j],
        decreases la - i,
    {
        if a.get_char(i) != b.get_char(i) {
            return false;
        }
        i += 1;
    }
    proof {
        assert(a@ =~= b@);
    }
    true
}

} // verus!
