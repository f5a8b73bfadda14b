//! Text helpers on day keys: lexicographic order and truncation at a space.

use vstd::prelude::*;
use vstd::string::*;

verus! {

/// `a` and `b` agree on their first `i` characters.
pub open spec fn same_prefix(a: Seq<char>, b: Seq<char>, i: int) -> bool {
    &&& 0 <= i <= a.len()
    &&& i <= b.len()
    &&& forall|j: int| 0 <= j < i ==> a[j] == b[j]
}

/// `a` is below `b`, decided at position `i`: both agree before it and there
/// `a` has ended while `b` goes on, or `a` has the smaller character.
pub open spec fn lex_lt_at(a: Seq<char>, b: Seq<char>, i: int) -> bool {
    &&& same_prefix(a, b, i)
    &&& i < b.len()
    &&& (i == a.len() || a[i] < b[i])
}

/// Lexicographic order by code point, the order of `str`'s comparison.
pub open spec fn lex_lt(a: Seq<char>, b: Seq<char>) -> bool {
    exists|i: int| lex_lt_at(a, b, i)
}

/// The order is transitive.
pub proof fn lemma_lex_lt_transitive(a: Seq<char>, b: Seq<char>, c: Seq<char>)
    requires
        lex_lt(a, b),
        lex_lt(b, c),
    ensures
        lex_lt(a, c),
{
    let i = choose|i: int| lex_lt_at(a, b, i);
    let k = choose|k: int| lex_lt_at(b, c, k);
    if i < k {
        assert(lex_lt_at(a, c, i));
    } else if k < i {
        assert(lex_lt_at(a, c, k));
    } else {
        assert(lex_lt_at(a, c, i));
    }
}

/// The order is irreflexive.
pub proof fn lemma_lex_lt_irreflexive(a: Seq<char>)
    ensures
        !lex_lt(a, a),
{
}

/// Of two different sequences, one is below the other.
pub proof fn lemma_lex_lt_total(a: Seq<char>, b: Seq<char>)
    requires
        a != b,
    ensures
        lex_lt(a, b) || lex_lt(b, a),
{
    let n = if a.len() < b.len() { a.len() as int } else { b.len() as int };
    if forall|j: int| 0 <= j < n ==> a[j] == b[j] {
        if a.len() == b.len() {
            assert(a =~= b);
        } else if a.len() < b.len() {
            assert(lex_lt_at(a, b, n));
        } else {
            assert(lex_lt_at(b, a, n));
        }
    } else {
        let j = choose|j: int| 0 <= j < n && a[j] != b[j];
        lemma_first_difference(a, b, j);
    }
}

proof fn lemma_first_difference(a: Seq<char>, b: Seq<char>, j: int)
    requires
        0 <= j < a.len(),
        j < b.len(),
        a[j] != b[j],
    ensures
        lex_lt(a, b) || lex_lt(b, a),
    decreases j,
{
    if exists|m: int| 0 <= m < j && a[m] != b[m] {
        let m = choose|m: int| 0 <= m < j && a[m] != b[m];
        lemma_first_difference(a, b, m);
    } else {
        if a[j] < b[j] {
            assert(lex_lt_at(a, b, j));
        } else {
            assert(b[j] < a[j]);
            assert(lex_lt_at(b, a, j));
        }
    }
}

/// Whether `a` comes before `b` in lexicographic order.
pub fn str_lt(a: &str, b: &str) -> (r: bool)
    ensures
        r == lex_lt(a@, b@),
{
    let la = a.unicode_len();
    let lb = b.unicode_len();
    let mut i: usize = 0;
    while i < la && i < lb && a.get_char(i) == b.get_char(i)
        invariant
            la == a@.len(),
            lb == b@.len(),
            same_prefix(a@, b@, i as int),
        decreases la - i,
    {
        i = i + 1;
    }
    let r = if i < la && i < lb {
        a.get_char(i) < b.get_char(i)
    } else {
        i == la && i < lb
    };
    proof {
        if r {
            assert(lex_lt_at(a@, b@, i as int));
        } else {
            assert forall|k: int| !lex_lt_at(a@, b@, k) by {
                if k > i as int && i < la && i < lb {
                    assert(a@[i as int] != b@[i as int]);
                }
            }
        }
    }
    r
}

/// Where the first space of `s` stands, if it holds one.
pub open spec fn is_first_space(s: Seq<char>, k: int) -> bool {
    &&& 0 <= k < s.len()
    &&& s[k] == ' '
    &&& forall|j: int| 0 <= j < k ==> s[j] != ' '
}

/// What stands before the first space of `s`; all of `s` where it has none.
pub open spec fn before_first_space(s: Seq<char>) -> Seq<char> {
    if exists|k: int| is_first_space(s, k) {
        s.subrange(0, choose|k: int| is_first_space(s, k))
    } else {
        s
    }
}

/// The text before the first space of `s`, or all of `s`.
pub fn cut_at_space(s: &str) -> (r: String)
    ensures
        r@ == before_first_space(s@),
{
    let n = s.unicode_len();
    let mut i: usize = 0;
    while i < n && s.get_char(i) != ' '
        invariant
            n == s@.len(),
            i <= n,
            forall|j: int| 0 <= j < i ==> s@[j] != ' ',
        decreases n - i,
    {
        i = i + 1;
    }
    proof {
        if i < n {
            assert(is_first_space(s@, i as int));
            let k = choose|k: int| is_first_space(s@, k);
            assert(k == i as int);
        }
    }
    String::from_str(s.substring_char(0, i))
}

} // verus!
