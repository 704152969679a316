use vstd::prelude::*;

verus! {

/// The smaller of two natural numbers.
pub open spec fn min_nat(x: nat, y: nat) -> nat {
    if x <= y {
        x
    } else {
        y
    }
}

/// Levenshtein edit distance: the least number of character insertions,
/// deletions and substitutions that turns `a` into `b`.
pub open spec fn lev(a: Seq<char>, b: Seq<char>) -> nat
    decreases a.len() + b.len(),
{
    if a.len() == 0 {
        b.len()
    } else if b.len() == 0 {
        a.len()
    } else {
        let tail_cost: nat = if a.last() == b.last() {
            0
        } else {
            1
        };
        min_nat(
            min_nat(lev(a.drop_last(), b) + 1, lev(a, b.drop_last()) + 1),
            lev(a.drop_last(), b.drop_last()) + tail_cost,
        )
    }
}

/// The distance never exceeds the combined length of the two words.
pub proof fn lemma_lev_le_len(a: Seq<char>, b: Seq<char>)
    ensures
        lev(a, b) <= a.len() + b.len(),
    decreases a.len() + b.len(),
{
    if a.len() > 0 && b.len() > 0 {
        lemma_lev_le_len(a.drop_last(), b);
        lemma_lev_le_len(a, b.drop_last());
        lemma_lev_le_len(a.drop_last(), b.drop_last());
    }
}

/// The distance is zero exactly between equal words.
pub proof fn lemma_lev_zero_iff_eq(a: Seq<char>, b: Seq<char>)
    ensures
        lev(a, b) == 0 <==> a == b,
    decreases a.len() + b.len(),
{
    if a.len() == 0 {
        if b.len() == 0 {
            assert(a =~= b);
        }
    } else if b.len() == 0 {
    } else {
        lemma_lev_zero_iff_eq(a.drop_last(), b.drop_last());
        if a == b {
            assert(a.drop_last() =~= b.drop_last());
        }
        if lev(a, b) == 0 {
            assert(a.last() == b.last());
            assert(a =~= a.drop_last().push(a.last()));
            assert(b =~= b.drop_last().push(b.last()));
        }
    }
}

/// One step of the standard dynamic program over prefixes.
proof fn lemma_lev_unfold(a: Seq<char>, b: Seq<char>, i: int, j: int)
    requires
        1 <= i <= a.len(),
        1 <= j <= b.len(),
    ensures
        lev(a.take(i), b.take(j)) == min_nat(
            min_nat(lev(a.take(i - 1), b.take(j)) + 1, lev(a.take(i), b.take(j - 1)) + 1),
            lev(a.take(i - 1), b.take(j - 1)) + (if a[i - 1] == b[j - 1] {
                0nat
            } else {
                1nat
            }),
        ),
{
    let ta = a.take(i);
    let tb = b.take(j);
    assert(ta.drop_last() =~= a.take(i - 1));
    assert(tb.drop_last() =~= b.take(j - 1));
    assert(ta.last() == a[i - 1]);
    assert(tb.last() == b[j - 1]);
}

/// Computes the Levenshtein edit distance between two words.
pub fn levenshtein(a: &[char], b: &[char]) -> (d: usize)
    requires
        a@.len() + b@.len() < usize::MAX,
    ensures
        d == lev(a@, b@),
{
    let an = a.len();
    let bn = b.len();
    let mut prev: Vec<usize> = Vec::new();
    let mut j: usize = 0;
    while j <= bn
        invariant
            j <= bn + 1,
            bn == b@.len(),
            bn < usize::MAX,
            prev@.len() == j,
            forall|k: int| 0 <= k < j ==> prev@[k] == lev(a@.take(0), b@.take(k)),
        decreases bn + 1 - j,
    {
        proof {
            assert(a@.take(0) =~= Seq::<char>::empty());
            assert(b@.take(j as int) =~= b@.take(j as int));
            assert(lev(a@.take(0), b@.take(j as int)) == b@.take(j as int).len());
        }
        prev.push(j);
        j = j + 1;
    }
    let mut i: usize = 1;
    while i <= an
        invariant
            1 <= i <= an + 1,
            an == a@.len(),
            bn == b@.len(),
            an + bn < usize::MAX,
            prev@.len() == bn + 1,
            forall|k: int| 0 <= k <= bn ==> prev@[k] == lev(a@.take(i - 1), b@.take(k)),
        decreases an + 1 - i,
    {
        let mut curr: Vec<usize> = Vec::new();
        proof {
            assert(b@.take(0) =~= Seq::<char>::empty());
        }
        curr.push(i);
        let mut j: usize = 1;
        while j <= bn
            invariant
                1 <= i <= an,
                1 <= j <= bn + 1,
                an == a@.len(),
                bn == b@.len(),
                an + bn < usize::MAX,
                prev@.len() == bn + 1,
                forall|k: int| 0 <= k <= bn ==> prev@[k] == lev(a@.take(i - 1), b@.take(k)),
                curr@.len() == j,
                forall|k: int| 0 <= k < j ==> curr@[k] == lev(a@.take(i as int), b@.take(k)),
            decreases bn + 1 - j,
        {
            proof {
                lemma_lev_unfold(a@, b@, i as int, j as int);
                lemma_lev_le_len(a@.take(i - 1), b@.take(j as int));
                lemma_lev_le_len(a@.take(i as int), b@.take(j - 1));
                lemma_lev_le_len(a@.take(i - 1), b@.take(j - 1));
            }
            let cost: usize = if a[i - 1] == b[j - 1] {
                0
            } else {
                1
            };
            let up = prev[j] + 1;
            let left = curr[j - 1] + 1;
            let diag = prev[j - 1] + cost;
            let mut best = up;
            if left < best {
                best = left;
            }
            if diag < best {
                best = diag;
            }
            curr.push(best);
            j = j + 1;
        }
        prev = curr;
        i = i + 1;
    }
    proof {
        assert(a@.take(an as int) =~= a@);
        assert(b@.take(bn as int) =~= b@);
    }
    prev[bn]
}

} // verus!
