//! Character-level helpers shared by the parsers and formatters of the crate.
use vstd::prelude::*;

verus! {

/// Joins `parts` with `sep` between consecutive parts (`[a, b, c]` gives `a sep b sep c`).
pub open spec fn seq_join(parts: Seq<Seq<char>>, sep: Seq<char>) -> Seq<char>
    decreases parts.len(),
{
    if parts.len() == 0 {
        seq![]
    } else if parts.len() == 1 {
        parts[0]
    } else {
        seq_join(parts.drop_last(), sep) + sep + parts.last()
    }
}

/// Joining nothing gives nothing, one part gives that part, and one more part adds the
/// separator and that part at the end.
pub proof fn lemma_seq_join(parts: Seq<Seq<char>>, sep: Seq<char>, x: Seq<char>)
    ensures
        seq_join(Seq::<Seq<char>>::empty(), sep) == Seq::<char>::empty(),
        seq_join(seq![x], sep) == x,
        parts.len() > 0 ==> seq_join(parts.push(x), sep) == seq_join(parts, sep) + sep + x,
{
    assert(parts.push(x).drop_last() =~= parts);
}

/// The characters of each string of `v`.
pub open spec fn views_of(v: Seq<String>) -> Seq<Seq<char>> {
    v.map_values(|s: String| s@)
}

/// The characters of `s`, in order.
pub fn chars_of(s: &str) -> (v: Vec<char>)
    ensures
        v@ == s@,
{
    let mut v: Vec<char> = Vec::new();
    for c in it: s.chars()
        invariant
            v@ == it.seq().take(it.index() as int),
            it.seq() == s@,
    {
        v.push(c);
    }
    assert(v@ =~= s@);
    v
}

/// Builds a string holding the characters `cs[lo..hi]`.
pub fn string_of_range(cs: &Vec<char>, lo: usize, hi: usize) -> (s: String)
    requires
        lo <= hi <= cs@.len(),
    ensures
        s@ == cs@.subrange(lo as int, hi as int),
{
    let mut part: Vec<char> = Vec::new();
    let mut i = lo;
    while i < hi
        invariant
            lo <= i <= hi <= cs@.len(),
            part@ == cs@.subrange(lo as int, i as int),
        decreases hi - i,
    {
        part.push(cs[i]);
        i = i + 1;
    }
    string_from_chars(&part)
}

/// `String::from_iter` over a slice of characters.
#[verifier::external_body]
fn string_from_chars(cs: &Vec<char>) -> (s: String)
    ensures
        s@ == cs@,
{
    String::from_iter(cs.iter())
}

/// Appends the characters of `other` to `s`.
pub fn push_str(s: &mut String, other: &str)
    ensures
        final(s)@ == old(s)@ + other@,
{
    s.append(other);
}

/// A fresh string holding the characters of `s`.
pub fn owned(s: &str) -> (r: String)
    ensures
        r@ == s@,
{
    s.to_owned()
}

/// Joins the strings of `parts` with `sep`, as `[String]::join` does.
pub fn join_strings(parts: &Vec<String>, sep: &str) -> (res: String)
    ensures
        res@ == seq_join(views_of(parts@), sep@),
{
    let mut res = String::new();
    let ghost views = views_of(parts@);
    let n = parts.len();
    let mut i: usize = 0;
    while i < n
        invariant
            n == parts@.len(),
            i <= n,
            views == views_of(parts@),
            views.len() == n,
            res@ == seq_join(views.take(i as int), sep@),
        decreases n - i,
    {
        assert(views.take(i + 1).drop_last() == views.take(i as int));
        assert(views[i as int] == parts@[i as int]@);
        if i != 0 {
            res.append(sep);
        } else {
            assert(views.take(0) =~= Seq::<Seq<char>>::empty());
        }
        res.append(parts[i].as_str());
        i = i + 1;
    }
    assert(views.take(n as int) == views);
    res
}

} // verus!
