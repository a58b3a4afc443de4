//! Character sequences: lexicographic order and small text helpers.

use vstd::prelude::*;

verus! {

/// `a` and `b` agree on their first `n` characters.
pub open spec fn agree_upto(a: Seq<char>, b: Seq<char>, n: int) -> bool {
    &&& 0 <= n <= a.len()
    &&& n <= b.len()
    &&& forall|j: int| 0 <= j < n ==> a[j] == b[j]
}

/// `a` differs from `b` first at position `n`, where `a` is smaller
/// (either `a` ends there or its character there is smaller).
pub open spec fn less_at(a: Seq<char>, b: Seq<char>, n: int) -> bool {
    &&& agree_upto(a, b, n)
    &&& n < b.len()
    &&& (n == a.len() || (a[n] as int) < (b[n] as int))
}

/// Lexicographic order on character sequences; for `String`s this is the
/// order that `str`'s `Ord` gives, as UTF-8 preserves code point order.
pub open spec fn text_lt(a: Seq<char>, b: Seq<char>) -> bool {
    exists|n: int| less_at(a, b, n)
}

/// Three-way outcome of a comparison.
#[derive(PartialEq, Eq, Structural, Clone, Copy, Debug)]
pub enum Order3 {
    Less,
    Equal,
    Greater,
}

pub proof fn lemma_text_lt_irreflexive(a: Seq<char>)
    ensures
        !text_lt(a, a),
{
}

pub proof fn lemma_text_lt_asymmetric(a: Seq<char>, b: Seq<char>)
    ensures
        text_lt(a, b) ==> !text_lt(b, a),
{
    if text_lt(a, b) && text_lt(b, a) {
        let n = choose|n: int| less_at(a, b, n);
        let m = choose|m: int| less_at(b, a, m);
        if n < m {
            assert(a[n] == b[n]);
        } else if m < n {
            assert(a[m] == b[m]);
        }
    }
}

pub proof fn lemma_text_lt_transitive(a: Seq<char>, b: Seq<char>, c: Seq<char>)
    requires
        text_lt(a, b),
        text_lt(b, c),
    ensures
        text_lt(a, c),
{
    let n = choose|n: int| less_at(a, b, n);
    let m = choose|m: int| less_at(b, c, m);
    if n < m {
        assert(less_at(a, c, n));
    } else if m < n {
        assert(less_at(a, c, m));
    } else {
        assert(less_at(a, c, n));
    }
}

pub proof fn lemma_text_lt_total(a: Seq<char>, b: Seq<char>)
    ensures
        a == b || text_lt(a, b) || text_lt(b, a),
{
    if a != b {
        if forall|j: int| 0 <= j < a.len() && j < b.len() ==> a[j] == b[j] {
            if a.len() < b.len() {
                assert(less_at(a, b, a.len() as int));
            } else if b.len() < a.len() {
                assert(less_at(b, a, b.len() as int));
            } else {
                assert(a =~= b);
            }
        } else {
            let k = choose|k: int| 0 <= k < a.len() && k < b.len() && a[k] != b[k];
            let n = first_difference(a, b, k);
            if (a[n] as int) < (b[n] as int) {
                assert(less_at(a, b, n));
            } else {
                assert(less_at(b, a, n));
            }
        }
    }
}

proof fn first_difference(a: Seq<char>, b: Seq<char>, k: int) -> (n: int)
    requires
        0 <= k < a.len(),
        k < b.len(),
        a[k] != b[k],
    ensures
        0 <= n <= k,
        a[n] != b[n],
        forall|j: int| 0 <= j < n ==> a[j] == b[j],
    decreases k,
{
    if exists|j: int| 0 <= j < k && a[j] != b[j] {
        let j = choose|j: int| 0 <= j < k && a[j] != b[j];
        first_difference(a, b, j)
    } else {
        k
    }
}

/// The characters of `s`, in order.
pub fn text_chars(s: &str) -> (v: Vec<char>)
    ensures
        v@ == s@,
{
    let n = s.unicode_len();
    let mut v: Vec<char> = Vec::new();
    let mut i: usize = 0;
    while i < n
        invariant
            n == s@.len(),
            i <= n,
            v@ == s@.subrange(0, i as int),
        decreases n - i,
    {
        let c = s.get_char(i);
        v.push(c);
        i = i + 1;
        assert(v@ =~= s@.subrange(0, i as int));
    }
    assert(v@ =~= s@);
    v
}

/// Lexicographic comparison of two character vectors.
pub fn compare_char_vecs(a: &Vec<char>, b: &Vec<char>) -> (r: Order3)
    ensures
        r == Order3::Less <==> text_lt(a@, b@),
        r == Order3::Greater <==> text_lt(b@, a@),
        r == Order3::Equal <==> a@ == b@,
{
    let mut i: usize = 0;
    while i < a.len() && i < b.len()
        invariant
            agree_upto(a@, b@, i as int),
        decreases a.len() - i,
    {
        if a[i] != b[i] {
            proof {
                lemma_text_lt_asymmetric(a@, b@);
            }
            if a[i] < b[i] {
                assert(less_at(a@, b@, i as int));
                return Order3::Less;
            } else {
                assert(less_at(b@, a@, i as int));
                return Order3::Greater;
            }
        }
        i = i + 1;
    }
    proof {
        lemma_text_lt_asymmetric(a@, b@);
    }
    if a.len() < b.len() {
        assert(less_at(a@, b@, i as int));
        Order3::Less
    } else if b.len() < a.len() {
        assert(less_at(b@, a@, i as int));
        Order3::Greater
    } else {
        assert(a@ =~= b@);
        proof {
            lemma_text_lt_irreflexive(a@);
        }
        Order3::Equal
    }
}

/// Lexicographic comparison of two strings.
pub fn compare_text(a: &str, b: &str) -> (r: Order3)
    ensures
        r == Order3::Less <==> text_lt(a@, b@),
        r == Order3::Greater <==> text_lt(b@, a@),
        r == Order3::Equal <==> a@ == b@,
{
    let va = text_chars(a);
    let vb = text_chars(b);
    compare_char_vecs(&va, &vb)
}

} // verus!
