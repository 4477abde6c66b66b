//! Strings, read character by character.

use vstd::prelude::*;
use vstd::std_specs::iter::IteratorSpec;

verus! {

/// The characters of `s`, in order.
pub fn chars_of(s: &str) -> (r: Vec<char>)
    ensures
        r@ == s@,
{
    let mut out: Vec<char> = Vec::new();
    for c in it: s.chars()
        invariant
            out@ == s@.take(it.index() as int),
            it.seq() == s@,
    {
        out.push(c);
        assert(s@.take(it.index() + 1) =~= s@.take(it.index() as int).push(c));
    }
    assert(s@.take(s@.len() as int) =~= s@);
    out
}

/// Whether `a` and `b` hold the same characters.
pub fn same_text(a: &str, b: &str) -> (r: bool)
    ensures
        r == (a@ == b@),
{
    let mut rest_a = a.chars();
    let mut rest_b = b.chars();
    let ghost mut n: int = 0;
    loop
        invariant
            0 <= n <= a@.len(),
            n <= b@.len(),
            rest_a.remaining() == a@.skip(n),
            rest_b.remaining() == b@.skip(n),
            a@.take(n) == b@.take(n),
            rest_a.obeys_prophetic_iter_laws(),
            rest_b.obeys_prophetic_iter_laws(),
        decreases a@.len() - n,
    {
        match (rest_a.next(), rest_b.next()) {
            (None, None) => {
                proof {
                    assert(a@.take(n) =~= a@);
                    assert(b@.take(n) =~= b@);
                }
                return true;
            },
            (Some(p), Some(q)) => {
                if p != q {
                    assert(a@[n] != b@[n]);
                    return false;
                }
                proof {
                    assert(a@.take(n + 1) =~= a@.take(n).push(p));
                    assert(b@.take(n + 1) =~= b@.take(n).push(q));
                    assert(a@.skip(n + 1) =~= a@.skip(n).drop_first());
                    assert(b@.skip(n + 1) =~= b@.skip(n).drop_first());
                    n = n + 1;
                }
            },
            _ => {
                assert(a@.len() != b@.len());
                return false;
            },
        }
    }
}

/// Whether the first `mark` of `text` stands at `at`; `at` is the length of
/// `text` where it holds no `mark`.
pub open spec fn stops_at(text: Seq<char>, mark: char, at: int) -> bool {
    &&& 0 <= at <= text.len()
    &&& forall|i: int| 0 <= i < at ==> text[i] != mark
    &&& at < text.len() ==> text[at] == mark
}

/// The length of what `text` holds before its first `mark`: the place of
/// that `mark`, or the length of `text` where it holds none.
pub open spec fn prefix_len(text: Seq<char>, mark: char) -> int {
    choose|at: int| stops_at(text, mark, at)
}

/// Whether `text` holds no space.
pub open spec fn spaceless(text: Seq<char>) -> bool {
    forall|i: int| 0 <= i < text.len() ==> text[i] != ' '
}

/// Every text has exactly one place at which its first `mark` stands.
pub proof fn lemma_prefix_len(text: Seq<char>, mark: char)
    ensures
        stops_at(text, mark, prefix_len(text, mark)),
        forall|at: int| stops_at(text, mark, at) ==> at == prefix_len(text, mark),
{
    lemma_stops_somewhere(text, mark, 0);
    let chosen = prefix_len(text, mark);
    assert forall|at: int| stops_at(text, mark, at) implies at == chosen by {
        if at < chosen {
            assert(text[at] == mark);
        } else if chosen < at {
            assert(text[chosen] == mark);
        }
    }
}

proof fn lemma_stops_somewhere(text: Seq<char>, mark: char, from: int)
    requires
        0 <= from <= text.len(),
        forall|i: int| 0 <= i < from ==> text[i] != mark,
    ensures
        exists|at: int| stops_at(text, mark, at),
    decreases text.len() - from,
{
    if from < text.len() && text[from] != mark {
        lemma_stops_somewhere(text, mark, from + 1);
    } else {
        assert(stops_at(text, mark, from));
    }
}

/// The place of the first `mark` of `chars` at or after `from`, or the
/// length of `chars`.
pub fn prefix_end(chars: &Vec<char>, from: usize, mark: char) -> (r: usize)
    requires
        from <= chars.len(),
    ensures
        from <= r <= chars.len(),
        r - from == prefix_len(chars@.skip(from as int), mark),
{
    let mut i: usize = from;
    while i < chars.len() && chars[i] != mark
        invariant
            from <= i <= chars.len(),
            forall|j: int| from <= j < i ==> chars@[j] != mark,
        decreases chars.len() - i,
    {
        i += 1;
    }
    proof {
        let rest = chars@.skip(from as int);
        assert(stops_at(rest, mark, i - from));
        lemma_prefix_len(rest, mark);
    }
    i
}

} // verus!
