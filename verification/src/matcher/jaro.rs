use vstd::prelude::*;

verus! {

/// The smaller of two integers.
pub open spec fn min_int(x: int, y: int) -> int {
    if x <= y {
        x
    } else {
        y
    }
}

/// Radius of the window in which a character of one word may match a
/// character of the other: half the longer length, less one, floored at
/// zero.
pub open spec fn search_range(alen: int, blen: int) -> int {
    let half = (if alen >= blen {
        alen
    } else {
        blen
    }) / 2;
    if half > 0 {
        half - 1
    } else {
        0
    }
}

/// Lower end of the match window around position `i`.
pub open spec fn win_lo(i: int, r: int) -> int {
    if i > r {
        i - r
    } else {
        0
    }
}

/// Upper end (exclusive) of the match window around position `i`.
pub open spec fn win_hi(i: int, r: int, blen: int) -> int {
    min_int(blen, i + r + 1)
}

/// The first not-yet-matched position in `b[j..hi)` holding `ch`.
pub open spec fn find_free(b: Seq<char>, flags: Seq<bool>, ch: char, j: int, hi: int) -> Option<
    int,
>
    decreases hi - j,
{
    if j >= hi {
        None
    } else if 0 <= j && j < b.len() && j < flags.len() && !flags[j] && b[j] == ch {
        Some(j)
    } else {
        find_free(b, flags, ch, j + 1, hi)
    }
}

/// A found position lies in the scanned range, is free, and matches.
pub proof fn lemma_find_free_some(b: Seq<char>, flags: Seq<bool>, ch: char, j: int, hi: int)
    ensures
        match find_free(b, flags, ch, j, hi) {
            Some(k) => j <= k < hi && 0 <= k < b.len() && k < flags.len() && !flags[k] && b[k]
                == ch,
            None => true,
        },
    decreases hi - j,
{
    if j < hi {
        lemma_find_free_some(b, flags, ch, j + 1, hi);
    }
}

/// Match state after the first `i` characters of `a` have sought partners
/// in `b`: which positions of `b` are taken, and the matched characters of
/// `a` in order.
pub open spec fn match_state(a: Seq<char>, b: Seq<char>, i: int) -> (Seq<bool>, Seq<char>)
    decreases i,
{
    if i <= 0 {
        (Seq::new(b.len(), |k: int| false), Seq::<char>::empty())
    } else {
        let (flags, ma) = match_state(a, b, i - 1);
        let r = search_range(a.len() as int, b.len() as int);
        match find_free(b, flags, a[i - 1], win_lo(i - 1, r), win_hi(i - 1, r, b.len() as int)) {
            Some(j) => (flags.update(j, true), ma.push(a[i - 1])),
            None => (flags, ma),
        }
    }
}

/// How many positions are already taken.
pub open spec fn count_true(s: Seq<bool>) -> nat
    decreases s.len(),
{
    if s.len() == 0 {
        0
    } else {
        (if s[0] {
            1nat
        } else {
            0nat
        }) + count_true(s.drop_first())
    }
}

proof fn lemma_count_true_le(s: Seq<bool>)
    ensures
        count_true(s) <= s.len(),
    decreases s.len(),
{
    if s.len() > 0 {
        lemma_count_true_le(s.drop_first());
    }
}

proof fn lemma_count_true_update(s: Seq<bool>, j: int)
    requires
        0 <= j < s.len(),
        !s[j],
    ensures
        count_true(s.update(j, true)) == count_true(s) + 1,
    decreases s.len(),
{
    if j == 0 {
        assert(s.update(0, true).drop_first() =~= s.drop_first());
    } else {
        assert(s.update(j, true).drop_first() =~= s.drop_first().update(j - 1, true));
        lemma_count_true_update(s.drop_first(), j - 1);
    }
}

/// The matched characters are never more than the scanned prefix of `a`,
/// and exactly as many positions of `b` are taken as characters matched.
pub proof fn lemma_match_state_wf(a: Seq<char>, b: Seq<char>, i: int)
    requires
        0 <= i,
    ensures
        ({
            let (flags, ma) = match_state(a, b, i);
            &&& flags.len() == b.len()
            &&& ma.len() == count_true(flags)
            &&& ma.len() <= i
        }),
    decreases i,
{
    if i == 0 {
        let (flags, ma) = match_state(a, b, 0);
        assert forall|k: int| 0 <= k < flags.len() implies !flags[k] by {}
        lemma_count_all_false(flags);
    } else {
        lemma_match_state_wf(a, b, i - 1);
        let (flags, ma) = match_state(a, b, i - 1);
        let r = search_range(a.len() as int, b.len() as int);
        let found = find_free(b, flags, a[i - 1], win_lo(i - 1, r), win_hi(i - 1, r, b.len() as int));
        lemma_find_free_some(b, flags, a[i - 1], win_lo(i - 1, r), win_hi(i - 1, r, b.len() as int));
        match found {
            Some(j) => {
                lemma_count_true_update(flags, j);
            },
            None => {},
        }
    }
}

proof fn lemma_count_all_false(s: Seq<bool>)
    requires
        forall|k: int| 0 <= k < s.len() ==> !s[k],
    ensures
        count_true(s) == 0,
    decreases s.len(),
{
    if s.len() > 0 {
        lemma_count_all_false(s.drop_first());
    }
}

/// The characters of `b` standing at taken positions, in position order,
/// from position `k` on.
pub open spec fn flagged(b: Seq<char>, flags: Seq<bool>, k: int) -> Seq<char>
    decreases b.len() - k,
{
    if k < 0 || k >= b.len() {
        Seq::<char>::empty()
    } else if k < flags.len() && flags[k] {
        seq![b[k]] + flagged(b, flags, k + 1)
    } else {
        flagged(b, flags, k + 1)
    }
}

/// How many aligned positions of two words disagree.
pub open spec fn mismatches(x: Seq<char>, y: Seq<char>) -> nat
    decreases x.len(),
{
    if x.len() == 0 || y.len() == 0 {
        0
    } else {
        (if x[0] != y[0] {
            1nat
        } else {
            0nat
        }) + mismatches(x.drop_first(), y.drop_first())
    }
}

proof fn lemma_mismatches_le(x: Seq<char>, y: Seq<char>)
    ensures
        mismatches(x, y) <= x.len(),
    decreases x.len(),
{
    if x.len() > 0 && y.len() > 0 {
        lemma_mismatches_le(x.drop_first(), y.drop_first());
    }
}

/// Length of the common prefix of `a` and `b` from position `i`, counting
/// no further than position `cap`.
pub open spec fn common_prefix_len(a: Seq<char>, b: Seq<char>, i: int, cap: int) -> int
    decreases cap - i,
{
    if i >= cap || i >= a.len() || i >= b.len() || a[i] != b[i] {
        0
    } else {
        1 + common_prefix_len(a, b, i + 1, cap)
    }
}

proof fn lemma_common_prefix_bounds(a: Seq<char>, b: Seq<char>, i: int, cap: int)
    ensures
        0 <= common_prefix_len(a, b, i, cap) <= (if cap - i >= 0 {
            cap - i
        } else {
            0
        }),
    decreases cap - i,
{
    if !(i >= cap || i >= a.len() || i >= b.len() || a[i] != b[i]) {
        lemma_common_prefix_bounds(a, b, i + 1, cap);
    }
}

/// Jaro similarity of two words, as an exact fraction
/// `(numerator, denominator)`: the mean of the matched share of each word
/// and the share of matches that stand in order.
pub open spec fn jaro_frac(a: Seq<char>, b: Seq<char>) -> (int, int) {
    if a.len() == 0 && b.len() == 0 {
        (1, 1)
    } else if a.len() == 0 || b.len() == 0 {
        (0, 1)
    } else {
        let (flags, ma) = match_state(a, b, a.len() as int);
        let m = ma.len() as int;
        if m == 0 {
            (0, 1)
        } else {
            let mb = flagged(b, flags, 0);
            let t = mismatches(ma, mb) / 2;
            (
                m * m * b.len() + m * m * a.len() + (m - t) * a.len() * b.len(),
                3 * a.len() * b.len() * m,
            )
        }
    }
}

/// Jaro–Winkler similarity as an exact fraction: the Jaro similarity,
/// boosted towards one by a common prefix of up to four characters when it
/// already exceeds seven tenths.
pub open spec fn jaro_winkler_frac(a: Seq<char>, b: Seq<char>) -> (int, int) {
    let (n, d) = jaro_frac(a, b);
    if 10 * n > 7 * d {
        let l = common_prefix_len(a, b, 0, 4);
        (10 * n + l * (d - n), 10 * d)
    } else {
        (10 * n, 10 * d)
    }
}

/// The Jaro fraction is proper: positive denominator, numerator between
/// zero and the denominator.
pub proof fn lemma_jaro_frac_bounds(a: Seq<char>, b: Seq<char>)
    ensures
        ({
            let (n, d) = jaro_frac(a, b);
            0 <= n <= d && 1 <= d
        }),
{
    let alen = a.len() as int;
    let blen = b.len() as int;
    if alen == 0 || blen == 0 {
    } else {
        lemma_match_state_wf(a, b, alen);
        let (flags, ma) = match_state(a, b, alen);
        lemma_count_true_le(flags);
        let m = ma.len() as int;
        if m != 0 {
            let mb = flagged(b, flags, 0);
            lemma_mismatches_le(ma, mb);
            let t = mismatches(ma, mb) as int / 2;
            assert(0 <= t <= m);
            assert(m <= alen && m <= blen);
            assert(m * m * blen + m * m * alen + (m - t) * alen * blen <= 3 * alen * blen * m)
                by (nonlinear_arith)
                requires
                    1 <= m <= alen,
                    m <= blen,
                    0 <= t <= m,
            ;
            assert(m * m * blen + m * m * alen + (m - t) * alen * blen >= 1) by (nonlinear_arith)
                requires
                    1 <= m <= alen,
                    m <= blen,
                    0 <= t <= m,
            ;
            assert(3 * alen * blen * m >= 1) by (nonlinear_arith)
                requires
                    1 <= m <= alen,
                    m <= blen,
            ;
        }
    }
}

/// The Jaro–Winkler fraction is proper as well.
pub proof fn lemma_jw_frac_bounds(a: Seq<char>, b: Seq<char>)
    ensures
        ({
            let (n, d) = jaro_winkler_frac(a, b);
            0 <= n <= d && 1 <= d
        }),
{
    lemma_jaro_frac_bounds(a, b);
    let (n, d) = jaro_frac(a, b);
    if 10 * n > 7 * d {
        lemma_common_prefix_bounds(a, b, 0, 4);
        let l = common_prefix_len(a, b, 0, 4);
        assert(10 * n + l * (d - n) <= 10 * d) by (nonlinear_arith)
            requires
                0 <= n <= d,
                0 <= l <= 4,
        ;
    }
}

/// Scanning from `lo` finds `tgt` when everything before `tgt` is taken
/// and `tgt` itself is a free match.
proof fn lemma_find_free_at(b: Seq<char>, flags: Seq<bool>, ch: char, lo: int, hi: int, tgt: int)
    requires
        0 <= lo <= tgt < hi,
        tgt < b.len(),
        tgt < flags.len(),
        !flags[tgt],
        b[tgt] == ch,
        forall|j: int| lo <= j < tgt ==> 0 <= j < flags.len() && flags[j],
    ensures
        find_free(b, flags, ch, lo, hi) == Some(tgt),
    decreases tgt - lo,
{
    if lo < tgt {
        lemma_find_free_at(b, flags, ch, lo + 1, hi, tgt);
    }
}

/// Matching a word against itself takes every position in order.
proof fn lemma_match_state_self(s: Seq<char>, i: int)
    requires
        0 <= i <= s.len(),
    ensures
        match_state(s, s, i) == (Seq::new(s.len(), |k: int| k < i), s.take(i)),
    decreases i,
{
    if i == 0 {
        assert(Seq::new(s.len(), |k: int| false) =~= Seq::new(s.len(), |k: int| k < 0));
        assert(match_state(s, s, 0).1 =~= s.take(0));
    } else {
        lemma_match_state_self(s, i - 1);
        let flags = Seq::new(s.len(), |k: int| k < i - 1);
        let r = search_range(s.len() as int, s.len() as int);
        let lo = win_lo(i - 1, r);
        let hi = win_hi(i - 1, r, s.len() as int);
        lemma_find_free_at(s, flags, s[i - 1], lo, hi, i - 1);
        assert(flags.update(i - 1, true) =~= Seq::new(s.len(), |k: int| k < i));
        assert(s.take(i - 1).push(s[i - 1]) =~= s.take(i));
    }
}

proof fn lemma_flagged_all_true(b: Seq<char>, flags: Seq<bool>, k: int)
    requires
        flags.len() == b.len(),
        forall|j: int| 0 <= j < flags.len() ==> flags[j],
        0 <= k <= b.len(),
    ensures
        flagged(b, flags, k) == b.skip(k),
    decreases b.len() - k,
{
    if k >= b.len() {
        assert(b.skip(k) =~= Seq::<char>::empty());
    } else {
        lemma_flagged_all_true(b, flags, k + 1);
        assert(seq![b[k]] + b.skip(k + 1) =~= b.skip(k));
    }
}

proof fn lemma_mismatches_self(x: Seq<char>)
    ensures
        mismatches(x, x) == 0,
    decreases x.len(),
{
    if x.len() > 0 {
        lemma_mismatches_self(x.drop_first());
    }
}

/// A word is perfectly similar to itself: the Jaro–Winkler fraction of a
/// word with itself equals one.
pub proof fn lemma_jw_self(s: Seq<char>)
    ensures
        jaro_winkler_frac(s, s).0 == jaro_winkler_frac(s, s).1,
        jaro_winkler_frac(s, s).1 >= 1,
{
    let n = s.len() as int;
    if n == 0 {
    } else {
        lemma_match_state_self(s, n);
        let flags = Seq::new(s.len(), |k: int| k < n);
        assert(match_state(s, s, n).1 == s.take(n));
        assert(s.take(n) =~= s);
        let m = s.len() as int;
        assert(m >= 1);
        lemma_flagged_all_true(s, flags, 0);
        assert(s.skip(0) =~= s);
        lemma_mismatches_self(s);
        let t = mismatches(s, s) as int / 2;
        assert(t == 0);
        assert(jaro_frac(s, s).0 == m * m * n + m * m * n + (m - 0) * n * n);
        assert(jaro_frac(s, s).1 == 3 * n * n * m);
        assert(m * m * n + m * m * n + (m - 0) * n * n == 3 * n * n * m) by (nonlinear_arith)
            requires
                m == n,
        ;
        assert(3 * n * n * m >= 1) by (nonlinear_arith)
            requires
                m == n,
                n >= 1,
        ;
        let d = jaro_frac(s, s).1;
        let nn = jaro_frac(s, s).0;
        assert(10 * nn > 7 * d);
        let l = common_prefix_len(s, s, 0, 4);
        assert(l * (d - nn) == 0) by (nonlinear_arith)
            requires
                d == nn,
        ;
    }
}

fn find_free_exec(b: &[char], flags: &Vec<bool>, ch: char, lo: usize, hi: usize) -> (r: Option<
    usize,
>)
    requires
        hi <= b@.len(),
        flags@.len() == b@.len(),
    ensures
        match r {
            Some(k) => find_free(b@, flags@, ch, lo as int, hi as int) == Some(k as int),
            None => find_free(b@, flags@, ch, lo as int, hi as int) is None,
        },
{
    let mut j = lo;
    while j < hi
        invariant
            lo <= j,
            hi <= b@.len(),
            flags@.len() == b@.len(),
            find_free(b@, flags@, ch, lo as int, hi as int) == find_free(
                b@,
                flags@,
                ch,
                j as int,
                hi as int,
            ),
        decreases hi - j,
    {
        if !flags[j] && b[j] == ch {
            return Some(j);
        }
        j = j + 1;
    }
    None
}

fn common_prefix_exec(a: &[char], b: &[char], cap: usize) -> (l: usize)
    ensures
        l as int == common_prefix_len(a@, b@, 0, cap as int),
        l <= cap,
{
    let mut j: usize = 0;
    while j < cap && j < a.len() && j < b.len() && a[j] == b[j]
        invariant
            j <= cap,
            common_prefix_len(a@, b@, 0, cap as int) == j + common_prefix_len(
                a@,
                b@,
                j as int,
                cap as int,
            ),
        decreases cap - j,
    {
        j = j + 1;
    }
    j
}

/// Computes the exact Jaro–Winkler fraction of two words.  The result is
/// a proper fraction with a denominator of at most
/// `30_000_000_000_000`.
pub fn jaro_winkler(a: &[char], b: &[char]) -> (r: (u64, u64))
    requires
        a@.len() <= 10000,
        b@.len() <= 10000,
    ensures
        r.0 as int == jaro_winkler_frac(a@, b@).0,
        r.1 as int == jaro_winkler_frac(a@, b@).1,
        r.0 <= r.1,
        1 <= r.1,
        r.1 <= 30_000_000_000_000u64,
{
    proof {
        lemma_jw_frac_bounds(a@, b@);
    }
    let an = a.len();
    let bn = b.len();
    if an == 0 && bn == 0 {
        return (10, 10);
    }
    if an == 0 || bn == 0 {
        return (0, 10);
    }
    let maxlen = if an >= bn {
        an
    } else {
        bn
    };
    let half = maxlen / 2;
    let sr = if half > 0 {
        half - 1
    } else {
        0
    };
    assert(sr as int == search_range(an as int, bn as int));
    let mut flags: Vec<bool> = Vec::new();
    let mut k: usize = 0;
    while k < bn
        invariant
            k <= bn,
            flags@.len() == k,
            forall|q: int| 0 <= q < k ==> !flags@[q],
        decreases bn - k,
    {
        flags.push(false);
        k = k + 1;
    }
    assert(flags@ =~= Seq::new(b@.len(), |q: int| false));
    let mut ma: Vec<char> = Vec::new();
    let mut i: usize = 0;
    while i < an
        invariant
            i <= an,
            an == a@.len(),
            bn == b@.len(),
            an <= 10000,
            bn <= 10000,
            sr <= 5000,
            sr as int == search_range(an as int, bn as int),
            (flags@, ma@) == match_state(a@, b@, i as int),
            flags@.len() == bn,
            ma@.len() <= i,
        decreases an - i,
    {
        let lo = if i > sr {
            i - sr
        } else {
            0
        };
        let hi = if i + sr + 1 < bn {
            i + sr + 1
        } else {
            bn
        };
        assert(lo as int == win_lo(i as int, sr as int));
        assert(hi as int == win_hi(i as int, sr as int, bn as int));
        match find_free_exec(b, &flags, a[i], lo, hi) {
            Some(j) => {
                proof {
                    lemma_find_free_some(b@, flags@, a@[i as int], lo as int, hi as int);
                }
                flags.set(j, true);
                ma.push(a[i]);
            },
            None => {},
        }
        i = i + 1;
    }
    let m = ma.len();
    if m == 0 {
        return (0, 10);
    }
    proof {
        lemma_match_state_wf(a@, b@, an as int);
        lemma_count_true_le(flags@);
    }
    assert(m <= an && m <= bn);
    let mut mb: Vec<char> = Vec::new();
    let mut k: usize = 0;
    while k < bn
        invariant
            k <= bn,
            bn == b@.len(),
            flags@.len() == bn,
            flagged(b@, flags@, 0) == mb@ + flagged(b@, flags@, k as int),
        decreases bn - k,
    {
        let ghost mb0 = mb@;
        if flags[k] {
            mb.push(b[k]);
            assert(mb@ + flagged(b@, flags@, k + 1) =~= mb0 + (seq![b@[k as int]] + flagged(
                b@,
                flags@,
                k + 1,
            )));
        }
        k = k + 1;
    }
    assert(flagged(b@, flags@, bn as int) =~= Seq::<char>::empty());
    assert(mb@ + Seq::<char>::empty() =~= mb@);
    assert(mb@ == flagged(b@, flags@, 0));
    assert(ma@.skip(0) =~= ma@);
    assert(mb@.skip(0) =~= mb@);
    let mut mm: usize = 0;
    let both = if ma.len() <= mb.len() {
        ma.len()
    } else {
        mb.len()
    };
    let mut idx: usize = 0;
    while idx < both
        invariant
            idx <= both,
            both <= ma@.len(),
            both <= mb@.len(),
            both == min_int(ma@.len() as int, mb@.len() as int),
            mm <= idx,
            mismatches(ma@, mb@) == mm + mismatches(ma@.skip(idx as int), mb@.skip(idx as int)),
        decreases both - idx,
    {
        let ghost sx = ma@.skip(idx as int);
        let ghost sy = mb@.skip(idx as int);
        assert(sx[0] == ma@[idx as int] && sy[0] == mb@[idx as int]);
        if ma[idx] != mb[idx] {
            mm = mm + 1;
        }
        assert(sx.drop_first() =~= ma@.skip(idx + 1));
        assert(sy.drop_first() =~= mb@.skip(idx + 1));
        idx = idx + 1;
    }
    proof {
        let sx = ma@.skip(both as int);
        let sy = mb@.skip(both as int);
        assert(sx.len() == 0 || sy.len() == 0);
        assert(mismatches(sx, sy) == 0);
    }
    let t = mm / 2;
    assert(t as int == mismatches(ma@, mb@) as int / 2);
    assert(t <= m);
    let m64 = m as u64;
    let a64 = an as u64;
    let b64 = bn as u64;
    let t64 = t as u64;
    assert(m64 <= 10000 && a64 <= 10000 && b64 <= 10000 && t64 <= m64);
    assert(m64 * m64 <= 100_000_000u64 && m64 * m64 * b64 <= 1_000_000_000_000u64 && m64 * m64
        * a64 <= 1_000_000_000_000u64 && (m64 - t64) * a64 <= 100_000_000u64 && (m64 - t64) * a64
        * b64 <= 1_000_000_000_000u64 && 3 * a64 <= 30_000u64 && 3 * a64 * b64
        <= 300_000_000u64 && 3 * a64 * b64 * m64 <= 3_000_000_000_000u64) by (nonlinear_arith)
        requires
            1 <= m64 <= 10000,
            a64 <= 10000,
            b64 <= 10000,
            t64 <= m64,
    ;
    let num = m64 * m64 * b64 + m64 * m64 * a64 + (m64 - t64) * a64 * b64;
    let den = 3 * a64 * b64 * m64;
    assert(num as int == jaro_frac(a@, b@).0);
    assert(den as int == jaro_frac(a@, b@).1);
    proof {
        lemma_jaro_frac_bounds(a@, b@);
    }
    assert(num <= den && 1 <= den);
    if 10 * num > 7 * den {
        let l = common_prefix_exec(a, b, 4);
        let l64 = l as u64;
        assert(l64 * (den - num) <= 4 * 3_000_000_000_000u64) by (nonlinear_arith)
            requires
                l64 <= 4,
                den - num <= 3_000_000_000_000u64,
        ;
        (10 * num + l64 * (den - num), 10 * den)
    } else {
        (10 * num, 10 * den)
    }
}

} // verus!
