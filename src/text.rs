use vstd::prelude::*;

verus! {

/// Relies on `str::chars` collected into a `Vec`: the characters of the string,
/// in order.
#[verifier::external_body]
pub(crate) fn chars_of(s: &str) -> (r: Vec<char>)
    ensures
        r@ == s@,
{
    s.chars().collect()
}

/// Relies on collecting `char`s into a `String`: a string of exactly those
/// characters.
#[verifier::external_body]
pub(crate) fn string_of(cs: &[char]) -> (r: String)
    ensures
        r@ == cs@,
{
    cs.iter().collect()
}

/// Appends the characters of `t`.
pub(crate) fn push_str(s: &mut String, t: &str)
    ensures
        final(s)@ == old(s)@ + t@,
{
    s.append(t)
}

/// Value of a string of decimal digits.
pub open spec fn digits_value(s: Seq<char>) -> int
    decreases s.len(),
{
    if s.len() == 0 {
        0
    } else {
        digits_value(s.drop_last()) * 10 + (s.last() as int - '0' as int)
    }
}

pub open spec fn all_digits(s: Seq<char>) -> bool {
    forall|i: int| 0 <= i < s.len() ==> '0' <= #[trigger] s[i] <= '9'
}

/// A digit string is worth at least as much as each of its prefixes.
pub proof fn lemma_digits_prefix(s: Seq<char>, i: int)
    requires
        all_digits(s),
        0 <= i <= s.len(),
    ensures
        0 <= digits_value(s.take(i)) <= digits_value(s),
    decreases s.len() - i,
{
    if i < s.len() {
        lemma_digits_prefix(s, i + 1);
        assert(s.take(i + 1).drop_last() =~= s.take(i));
        lemma_digits_nonneg(s.take(i));
    } else {
        assert(s.take(i) =~= s);
        lemma_digits_nonneg(s);
    }
}

pub proof fn lemma_digits_nonneg(s: Seq<char>)
    requires
        all_digits(s),
    ensures
        digits_value(s) >= 0,
    decreases s.len(),
{
    if s.len() > 0 {
        assert(all_digits(s.drop_last()));
        lemma_digits_nonneg(s.drop_last());
    }
}

/// Reads a string of decimal digits whose value is at most `bound`; `None` for
/// an empty string, another character, or a larger value.
pub fn parse_bounded(cs: &[char], bound: u32) -> (r: Option<u32>)
    requires
        bound <= 100_000,
    ensures
        cs@.len() > 0 && all_digits(cs@) && digits_value(cs@) <= bound ==> r == Some(
            digits_value(cs@) as u32,
        ),
        !(cs@.len() > 0 && all_digits(cs@) && digits_value(cs@) <= bound) ==> r is None,
        r matches Some(v) ==> v <= bound && v as int == digits_value(cs@),
{
    if cs.len() == 0 {
        return None;
    }
    let mut i: usize = 0;
    while i < cs.len()
        invariant
            i <= cs@.len(),
            all_digits(cs@.take(i as int)),
        decreases cs.len() - i,
    {
        if cs[i] < '0' || cs[i] > '9' {
            assert(!all_digits(cs@));
            return None;
        }
        i = i + 1;
        assert(all_digits(cs@.take(i as int)));
    }
    assert(cs@.take(cs@.len() as int) =~= cs@);
    let mut v: u32 = 0;
    let mut i: usize = 0;
    while i < cs.len()
        invariant
            i <= cs@.len(),
            bound <= 100_000,
            all_digits(cs@),
            v as int == digits_value(cs@.take(i as int)),
            v <= bound,
        decreases cs.len() - i,
    {
        proof {
            assert(cs@.take(i + 1).drop_last() =~= cs@.take(i as int));
        }
        assert('0' <= cs@[i as int] <= '9');
        let d = (cs[i] as u32) - ('0' as u32);
        let next = v * 10 + d;
        if next > bound {
            proof {
                lemma_digits_prefix(cs@, i + 1);
            }
            return None;
        }
        v = next;
        i = i + 1;
    }
    assert(cs@.take(cs@.len() as int) =~= cs@);
    Some(v)
}

/// The characters of `cs` from `from` up to `to`.
pub(crate) fn slice_chars(cs: &Vec<char>, from: usize, to: usize) -> (r: Vec<char>)
    requires
        from <= to <= cs@.len(),
    ensures
        r@ == cs@.subrange(from as int, to as int),
{
    let mut out: Vec<char> = Vec::new();
    let mut i: usize = from;
    while i < to
        invariant
            from <= i <= to <= cs@.len(),
            out@ == cs@.subrange(from as int, i as int),
        decreases to - i,
    {
        out.push(cs[i]);
        i = i + 1;
        assert(out@ =~= cs@.subrange(from as int, i as int));
    }
    out
}

} // verus!
