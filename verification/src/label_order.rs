//! The order in which labels are shown: lexicographic, character by character.

use vstd::prelude::*;

verus! {

/// The scalar value by which two characters are compared.
pub open spec fn code(c: char) -> int {
    c as u32 as int
}

/// `a` and `b` agree on their first `k` characters, and there `a` either ends
/// while `b` goes on, or holds the smaller character.
pub open spec fn precedes_at(a: Seq<char>, b: Seq<char>, k: int) -> bool {
    &&& 0 <= k <= a.len()
    &&& k < b.len()
    &&& forall|i: int| 0 <= i < k ==> a[i] == b[i]
    &&& (k == a.len() || code(a[k]) < code(b[k]))
}

/// `a` comes strictly before `b` in lexicographic order.
pub open spec fn precedes(a: Seq<char>, b: Seq<char>) -> bool {
    exists|k: int| precedes_at(a, b, k)
}

/// The first position at or after `from` where `a` and `b` stop agreeing.
spec fn first_split(a: Seq<char>, b: Seq<char>, from: int) -> int
    decreases a.len() - from,
{
    if 0 <= from < a.len() && from < b.len() && a[from] == b[from] {
        first_split(a, b, from + 1)
    } else {
        from
    }
}

/// Up to `first_split` the two agree; there one of them ends, or they differ.
proof fn lemma_first_split(a: Seq<char>, b: Seq<char>, from: int)
    requires
        0 <= from <= a.len(),
        from <= b.len(),
        forall|i: int| 0 <= i < from ==> a[i] == b[i],
    ensures
        from <= first_split(a, b, from) <= a.len(),
        first_split(a, b, from) <= b.len(),
        forall|i: int| 0 <= i < first_split(a, b, from) ==> a[i] == b[i],
        first_split(a, b, from) < a.len() && first_split(a, b, from) < b.len() ==> a[first_split(
            a,
            b,
            from,
        )] != b[first_split(a, b, from)],
    decreases a.len() - from,
{
    if from < a.len() && from < b.len() && a[from] == b[from] {
        lemma_first_split(a, b, from + 1);
    }
}

/// Different characters have different scalar values.
proof fn lemma_code_injective(x: char, y: char)
    requires
        code(x) == code(y),
    ensures
        x == y,
{
    vstd::utf8::char_u32_cast(x, x as u32);
    vstd::utf8::char_u32_cast(y, y as u32);
}

/// No label comes before itself.
pub proof fn lemma_precedes_irreflexive(a: Seq<char>)
    ensures
        !precedes(a, a),
{
}

/// Two labels never come before each other.
pub proof fn lemma_precedes_asymmetric(a: Seq<char>, b: Seq<char>)
    requires
        precedes(a, b),
    ensures
        !precedes(b, a),
{
    let k = choose|k: int| precedes_at(a, b, k);
    if precedes(b, a) {
        let m = choose|m: int| precedes_at(b, a, m);
        if k < m {
            assert(b[k] == a[k]);
        } else if m < k {
            assert(a[m] == b[m]);
        }
    }
}

/// The order is transitive.
pub proof fn lemma_precedes_transitive(a: Seq<char>, b: Seq<char>, c: Seq<char>)
    requires
        precedes(a, b),
        precedes(b, c),
    ensures
        precedes(a, c),
{
    let k = choose|k: int| precedes_at(a, b, k);
    let m = choose|m: int| precedes_at(b, c, m);
    let n = if k <= m { k } else { m };
    assert forall|i: int| 0 <= i < n implies a[i] == c[i] by {
        assert(a[i] == b[i]);
        assert(b[i] == c[i]);
    }
    if k < m {
        assert(b[k] == c[k]);
    } else if m < k {
        assert(a[m] == b[m]);
    }
    assert(precedes_at(a, c, n));
}

/// Two different labels are always ordered, one way or the other.
pub proof fn lemma_precedes_total(a: Seq<char>, b: Seq<char>)
    requires
        a != b,
    ensures
        precedes(a, b) || precedes(b, a),
{
    let k = first_split(a, b, 0);
    lemma_first_split(a, b, 0);
    if k == a.len() && k == b.len() {
        assert(a =~= b);
    } else if k == a.len() {
        assert(precedes_at(a, b, k));
    } else if k == b.len() {
        assert(precedes_at(b, a, k));
    } else if code(a[k]) < code(b[k]) {
        assert(precedes_at(a, b, k));
    } else {
        if code(a[k]) == code(b[k]) {
            lemma_code_injective(a[k], b[k]);
        }
        assert(precedes_at(b, a, k));
    }
}

/// Decides whether label `a` comes strictly before label `b`.
pub fn label_precedes(a: &String, b: &String) -> (before: bool)
    ensures
        before == precedes(a@, b@),
{
    let a_chars = a.as_str();
    let b_chars = b.as_str();
    let a_len = a_chars.unicode_len();
    let b_len = b_chars.unicode_len();
    let mut i: usize = 0;
    while i < a_len && i < b_len
        invariant
            a_chars@ == a@,
            b_chars@ == b@,
            a_len == a@.len(),
            b_len == b@.len(),
            i <= a_len,
            i <= b_len,
            forall|j: int| 0 <= j < i ==> a@[j] == b@[j],
        decreases a_len - i,
    {
        let x = a_chars.get_char(i);
        let y = b_chars.get_char(i);
        if x != y {
            proof {
                if code(x) < code(y) {
                    assert(precedes_at(a@, b@, i as int));
                } else {
                    if code(x) == code(y) {
                        lemma_code_injective(x, y);
                    }
                    assert(precedes_at(b@, a@, i as int));
                    lemma_precedes_asymmetric(b@, a@);
                }
            }
            return x < y;
        }
        i += 1;
    }
    proof {
        if i < b_len {
            assert(precedes_at(a@, b@, i as int));
        } else {
            assert forall|k: int| !precedes_at(a@, b@, k) by {}
        }
    }
    i < b_len
}

} // verus!
