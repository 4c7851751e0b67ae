//! Character-level scanning helpers shared by the lexer and the delimited-text
//! reader: maximal runs of characters satisfying a predicate, and views of
//! string collections.

use vstd::prelude::*;

verus! {

/// First position `j` at or after `i` such that `j` is the end of the text or
/// `p` does not hold of the character at `j`; every character in `[i, j)`
/// satisfies `p`.
pub open spec fn char_run_end(s: Seq<char>, i: int, p: spec_fn(char) -> bool) -> int
    decreases s.len() - i
        when 0 <= i <= s.len()
{
    if i >= s.len() {
        s.len() as int
    } else if !p(s[i]) {
        i
    } else {
        char_run_end(s, i + 1, p)
    }
}

pub proof fn lemma_char_run_end(s: Seq<char>, i: int, p: spec_fn(char) -> bool)
    requires
        0 <= i <= s.len(),
    ensures
        i <= char_run_end(s, i, p) <= s.len(),
        forall|k: int| i <= k < char_run_end(s, i, p) ==> #[trigger] p(s[k]),
        char_run_end(s, i, p) < s.len() ==> !p(s[char_run_end(s, i, p)]),
    decreases s.len() - i,
{
    if i < s.len() && p(s[i]) {
        lemma_char_run_end(s, i + 1, p);
    }
}

/// A position that satisfies the defining conditions of `char_run_end` is it.
pub proof fn lemma_char_run_end_is(s: Seq<char>, i: int, j: int, p: spec_fn(char) -> bool)
    requires
        0 <= i <= j <= s.len(),
        forall|k: int| i <= k < j ==> #[trigger] p(s[k]),
        j < s.len() ==> !p(s[j]),
    ensures
        char_run_end(s, i, p) == j,
    decreases j - i,
{
    if i < j {
        assert(p(s[i]));
        lemma_char_run_end_is(s, i + 1, j, p);
    }
}

/// The predicate holding of every character other than `q`.
pub open spec fn not_char_p(q: char) -> spec_fn(char) -> bool {
    |c: char| c != q
}

/// The character sequences named by a sequence of strings.
pub open spec fn names_model(names: Seq<String>) -> Seq<Seq<char>> {
    names.map_values(|n: String| n@)
}

pub proof fn lemma_names_model_push(names: Seq<String>, n: String)
    ensures
        names_model(names.push(n)) == names_model(names).push(n@),
{
    assert(names_model(names.push(n)) =~= names_model(names).push(n@));
}

/// Scans forward from `from` to the first occurrence of `stop`, or to the end
/// of the text.
pub fn scan_until(s: &str, from: usize, n: usize, stop: char) -> (j: usize)
    requires
        n == s@.len(),
        from <= n,
    ensures
        j as int == char_run_end(s@, from as int, not_char_p(stop)),
        from <= j <= n,
{
    let mut j = from;
    while j < n
        invariant
            n == s@.len(),
            from <= j <= n,
            forall|k: int| from <= k < j ==> #[trigger] (not_char_p(stop))(s@[k]),
        decreases n - j,
    {
        let c = s.get_char(j);
        if c == stop {
            proof {
                lemma_char_run_end_is(s@, from as int, j as int, not_char_p(stop));
            }
            return j;
        }
        j += 1;
    }
    proof {
        lemma_char_run_end_is(s@, from as int, j as int, not_char_p(stop));
    }
    j
}

} // verus!
