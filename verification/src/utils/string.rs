use vstd::prelude::*;
use vstd::string::StrSliceExecFns;
use vstd::string::StringExecFns;

verus! {

/// Relies on `String::push`, which appends the given character to the end
/// of the string.
pub assume_specification[ String::push ](s: &mut String, ch: char)
    ensures
        final(s)@ == old(s)@.push(ch),
;

/// The characters of a string as an owned vector.
pub fn chars_of(s: &str) -> (v: Vec<char>)
    ensures
        v@ == s@,
{
    let n = s.unicode_len();
    let mut v: Vec<char> = Vec::new();
    let mut i: usize = 0;
    while i < n
        invariant
            i <= n,
            n == s@.len(),
            v@ == s@.take(i as int),
        decreases n - i,
    {
        v.push(s.get_char(i));
        assert(s@.take(i + 1) =~= s@.take(i as int).push(s@[i as int]));
        i = i + 1;
    }
    assert(s@.take(n as int) =~= s@);
    v
}

/// The characters of `s` joined by `between`: every two neighbouring
/// characters of `s` have one copy of `between` standing between them.
pub open spec fn joined(s: Seq<char>, between: Seq<char>) -> Seq<char>
    decreases s.len(),
{
    if s.len() == 0 {
        Seq::<char>::empty()
    } else if s.len() == 1 {
        seq![s[0]]
    } else {
        seq![s[0]] + between + joined(s.drop_first(), between)
    }
}

/// Appending one more character appends one separator and the character.
proof fn lemma_joined_push(s: Seq<char>, between: Seq<char>, x: char)
    ensures
        joined(s.push(x), between) == (if s.len() == 0 {
            seq![x]
        } else {
            joined(s, between) + between + seq![x]
        }),
    decreases s.len(),
{
    let p = s.push(x);
    if s.len() == 0 {
        assert(joined(p, between) =~= seq![x]);
    } else {
        assert(p[0] == s[0]);
        assert(p.drop_first() =~= s.drop_first().push(x));
        lemma_joined_push(s.drop_first(), between, x);
        if s.len() == 1 {
            assert(s.drop_first().len() == 0);
            assert(joined(p, between) == seq![s[0]] + between + seq![x]);
            assert(joined(s, between) + between + seq![x] =~= seq![s[0]] + between + seq![x]);
        } else {
            assert(joined(p, between) == seq![s[0]] + between + (joined(s.drop_first(), between)
                + between + seq![x]));
            assert(seq![s[0]] + between + (joined(s.drop_first(), between) + between + seq![x])
                =~= (seq![s[0]] + between + joined(s.drop_first(), between)) + between + seq![x]);
        }
    }
}

/// A word with every space removed, as the matcher normalises both the
/// utterance and the candidate command names.
pub open spec fn despaced(s: Seq<char>) -> Seq<char>
    decreases s.len(),
{
    if s.len() == 0 {
        Seq::<char>::empty()
    } else if s[0] == ' ' {
        despaced(s.drop_first())
    } else {
        seq![s[0]] + despaced(s.drop_first())
    }
}

/// Removing spaces never lengthens a word.
pub proof fn lemma_despaced_le_len(s: Seq<char>)
    ensures
        despaced(s).len() <= s.len(),
    decreases s.len(),
{
    if s.len() > 0 {
        lemma_despaced_le_len(s.drop_first());
    }
}

/// The characters of `v` with every space removed, in order.
pub fn strip_spaces(v: &[char]) -> (r: Vec<char>)
    ensures
        r@ == despaced(v@),
{
    let n = v.len();
    let mut r: Vec<char> = Vec::new();
    let mut i: usize = 0;
    assert(v@.skip(0) =~= v@);
    while i < n
        invariant
            i <= n,
            n == v@.len(),
            despaced(v@) == r@ + despaced(v@.skip(i as int)),
        decreases n - i,
    {
        let ghost suffix = v@.skip(i as int);
        let ghost r0 = r@;
        assert(suffix[0] == v@[i as int]);
        assert(suffix.drop_first() =~= v@.skip(i + 1));
        if v[i] != ' ' {
            r.push(v[i]);
            assert(r@ + despaced(v@.skip(i + 1)) =~= r0 + (seq![suffix[0]] + despaced(
                suffix.drop_first(),
            )));
        }
        i = i + 1;
    }
    assert(v@.skip(n as int) =~= Seq::<char>::empty());
    assert(r@ + despaced(v@.skip(n as int)) =~= r@);
    r
}

/// Spacing characters apart, as command names need for the recogniser's
/// grammar.
pub trait StringUtils: View<V = Seq<char>> {
    /// A copy of the string with `between` standing between every two
    /// neighbouring characters.
    fn add_between_chars(&self, between: &str) -> (r: String)
        ensures
            r@ == joined(self@, between@),
    ;
}

impl StringUtils for String {
    fn add_between_chars(&self, between: &str) -> (r: String) {
        let chars = chars_of(self.as_str());
        let n = chars.len();
        let mut out = String::new();
        let mut i: usize = 0;
        while i < n
            invariant
                i <= n,
                n == chars@.len(),
                chars@ == self@,
                out@ == joined(self@.take(i as int), between@),
            decreases n - i,
        {
            proof {
                lemma_joined_push(self@.take(i as int), between@, self@[i as int]);
                assert(self@.take(i + 1) =~= self@.take(i as int).push(self@[i as int]));
            }
            if i > 0 {
                out.append(between);
            }
            out.push(chars[i]);
            proof {
                if i == 0 {
                    assert(out@ =~= seq![self@[0]]);
                    assert(joined(self@.take(1), between@) == seq![self@.take(1)[0]]);
                } else {
                    assert(out@ =~= joined(self@.take(i as int), between@) + between@ + seq![
                        self@[i as int],
                    ]);
                }
            }
            i = i + 1;
        }
        assert(self@.take(n as int) =~= self@);
        out
    }
}

/// Emptiness of an optional string, treating absence as empty.
pub trait StringOptionUtils {
    /// What counts as empty for this type.
    spec fn spec_is_empty(&self) -> bool;

    /// True exactly when the value counts as empty.
    fn is_empty(&self) -> (r: bool)
        ensures
            r == self.spec_is_empty(),
    ;
}

impl StringOptionUtils for Option<String> {
    /// No string at all, or a string without characters.
    open spec fn spec_is_empty(&self) -> bool {
        match self {
            Some(s) => s@.len() == 0,
            None => true,
        }
    }

    fn is_empty(&self) -> (r: bool) {
        match self {
            Some(s) => s.as_str().is_empty(),
            None => true,
        }
    }
}

} // verus!
