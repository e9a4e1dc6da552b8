//! Plain string logic shared across the engine: prefix and equality tests,
//! lexical ordering, and path components.

use vstd::prelude::*;
use vstd::string::StrSliceExecFns;
use vstd::string::StringExecFns;

verus! {

broadcast use vstd::std_specs::vec::group_vec_axioms, vstd::seq::group_seq_axioms;

/// The views of a sequence of strings, elementwise.
pub open spec fn strings_view(v: Seq<String>) -> Seq<Seq<char>> {
    Seq::new(
        v.len(),
        |i: int|
            if 0 <= i < v.len() {
                v[i]@
            } else {
                Seq::empty()
            },
    )
}

/// Whether `p` is a prefix of `s`.
pub open spec fn has_prefix(s: Seq<char>, p: Seq<char>) -> bool {
    s.len() >= p.len() && s.subrange(0, p.len() as int) == p
}

/// Character-by-character prefix test.
pub fn str_has_prefix(s: &str, p: &str) -> (r: bool)
    ensures
        r == has_prefix(s@, p@),
{
    let s_len = s.unicode_len();
    let p_len = p.unicode_len();
    if s_len < p_len {
        assert(!has_prefix(s@, p@));
        return false;
    }
    let mut i: usize = 0;
    while i < p_len
        invariant
            i <= p_len,
            p_len == p@.len(),
            s@.len() >= p@.len(),
            forall|k: int| 0 <= k < i ==> s@[k] == p@[k],
        decreases p_len - i,
    {
        if s.get_char(i) != p.get_char(i) {
            assert(s@.subrange(0, p@.len() as int)[i as int] != p@[i as int]);
            return false;
        }
        i += 1;
    }
    assert(s@.subrange(0, p@.len() as int) =~= p@);
    true
}

/// Character-by-character equality test.
pub fn str_equal(a: &str, b: &str) -> (r: bool)
    ensures
        r == (a@ == b@),
{
    let a_len = a.unicode_len();
    let b_len = b.unicode_len();
    if a_len != b_len {
        return false;
    }
    let mut i: usize = 0;
    while i < a_len
        invariant
            i <= a_len,
            a_len == a@.len(),
            a@.len() == b@.len(),
            forall|k: int| 0 <= k < i ==> a@[k] == b@[k],
        decreases a_len - i,
    {
        if a.get_char(i) != b.get_char(i) {
            return false;
        }
        i += 1;
    }
    assert(a@ =~= b@);
    true
}

/// Whether `p` is a suffix of `s`.
pub open spec fn has_suffix(s: Seq<char>, p: Seq<char>) -> bool {
    s.len() >= p.len() && s.subrange(s.len() - p.len(), s.len() as int) == p
}

/// Character-by-character suffix test.
pub fn str_has_suffix(s: &str, p: &str) -> (r: bool)
    ensures
        r == has_suffix(s@, p@),
{
    let s_len = s.unicode_len();
    let p_len = p.unicode_len();
    if s_len < p_len {
        return false;
    }
    let base = s_len - p_len;
    let mut i: usize = 0;
    while i < p_len
        invariant
            i <= p_len,
            base == s_len - p_len,
            p_len == p@.len(),
            s_len == s@.len(),
            s@.len() >= p@.len(),
            forall|k: int| 0 <= k < i ==> s@[base + k] == p@[k],
        decreases p_len - i,
    {
        if s.get_char(base + i) != p.get_char(i) {
            assert(s@.subrange(s@.len() - p@.len(), s@.len() as int)[i as int] != p@[i as int]);
            return false;
        }
        i += 1;
    }
    assert(s@.subrange(s@.len() - p@.len(), s@.len() as int) =~= p@);
    true
}

/// The position of the last `/` in `path`, or `-1` if there is none.
pub open spec fn last_slash(path: Seq<char>) -> int
    decreases path.len(),
{
    if path.len() == 0 {
        -1
    } else if path[path.len() - 1] == '/' {
        path.len() - 1
    } else {
        last_slash(path.drop_last())
    }
}

/// The final component of a path: everything after its last `/`.
pub open spec fn last_component(path: Seq<char>) -> Seq<char> {
    path.subrange(last_slash(path) + 1, path.len() as int)
}

/// What `last_slash` computes: the last position holding `/`.
pub proof fn lemma_last_slash(path: Seq<char>)
    ensures
        -1 <= last_slash(path) < path.len(),
        last_slash(path) >= 0 ==> path[last_slash(path)] == '/',
        forall|j: int| last_slash(path) < j < path.len() ==> path[j] != '/',
    decreases path.len(),
{
    if path.len() > 0 && path[path.len() - 1] != '/' {
        lemma_last_slash(path.drop_last());
        assert(forall|j: int| 0 <= j < path.len() - 1 ==> path.drop_last()[j] == path[j]);
    }
}

/// The final component of `path`, as a new string.
pub fn final_component(path: &str) -> (r: String)
    ensures
        r@ == last_component(path@),
{
    let len = path.unicode_len();
    let mut start: usize = 0;
    let mut i: usize = 0;
    while i < len
        invariant
            i <= len,
            start <= i,
            len == path@.len(),
            start > 0 ==> path@[start - 1] == '/',
            forall|j: int| start <= j < i ==> path@[j] != '/',
        decreases len - i,
    {
        if path.get_char(i) == '/' {
            start = i + 1;
        }
        i += 1;
    }
    proof {
        lemma_last_slash(path@);
        if start == 0 {
            if last_slash(path@) >= 0 {
                assert(path@[last_slash(path@)] != '/');
            }
        } else {
            if last_slash(path@) > start - 1 {
                assert(path@[last_slash(path@)] != '/');
            }
            if last_slash(path@) < start - 1 {
                assert(path@[start - 1] != '/');
            }
        }
        assert(last_slash(path@) == start - 1);
    }
    let sub = path.substring_char(start, len);
    sub.to_owned()
}

/// Strict lexical order on character sequences.
pub open spec fn lex_lt(a: Seq<char>, b: Seq<char>) -> bool
    decreases a.len(),
{
    if b.len() == 0 {
        false
    } else if a.len() == 0 {
        true
    } else if a[0] != b[0] {
        a[0] < b[0]
    } else {
        lex_lt(a.drop_first(), b.drop_first())
    }
}

/// Non-strict lexical order.
pub open spec fn lex_leq(a: Seq<char>, b: Seq<char>) -> bool {
    lex_lt(a, b) || a == b
}

/// The lexical order never holds reflexively.
pub proof fn lemma_lex_irrefl(a: Seq<char>)
    ensures
        !lex_lt(a, a),
    decreases a.len(),
{
    if a.len() > 0 {
        lemma_lex_irrefl(a.drop_first());
    }
}

/// The lexical order is total and asymmetric.
pub proof fn lemma_lex_total(a: Seq<char>, b: Seq<char>)
    ensures
        lex_lt(a, b) || lex_lt(b, a) || a == b,
        !(lex_lt(a, b) && lex_lt(b, a)),
    decreases a.len(),
{
    if a.len() > 0 && b.len() > 0 && a[0] == b[0] {
        lemma_lex_total(a.drop_first(), b.drop_first());
        if a.drop_first() == b.drop_first() {
            assert(forall|j: int| 1 <= j < a.len() ==> a[j] == a.drop_first()[j - 1]);
            assert(forall|j: int| 1 <= j < b.len() ==> b[j] == b.drop_first()[j - 1]);
            assert(a =~= b);
        }
    }
}

/// The lexical order is transitive.
pub proof fn lemma_lex_trans(a: Seq<char>, b: Seq<char>, c: Seq<char>)
    requires
        lex_lt(a, b),
        lex_lt(b, c),
    ensures
        lex_lt(a, c),
    decreases a.len(),
{
    if a.len() > 0 && b.len() > 0 && c.len() > 0 {
        if a[0] == b[0] && b[0] == c[0] {
            lemma_lex_trans(a.drop_first(), b.drop_first(), c.drop_first());
        }
    }
}

/// How many times `x` occurs in `s`.
pub open spec fn count_in<A>(s: Seq<A>, x: A) -> nat
    decreases s.len(),
{
    if s.len() == 0 {
        0
    } else {
        (if s[0] == x {
            1nat
        } else {
            0nat
        }) + count_in(s.drop_first(), x)
    }
}

/// The two sequences hold the same elements with the same multiplicities.
pub open spec fn permutation_of<A>(a: Seq<A>, b: Seq<A>) -> bool {
    forall|x: A| #[trigger] count_in(a, x) == count_in(b, x)
}

/// Appending one element adds one occurrence of it.
pub proof fn lemma_count_push<A>(s: Seq<A>, e: A, x: A)
    ensures
        count_in(s.push(e), x) == count_in(s, x) + (if e == x {
            1nat
        } else {
            0nat
        }),
    decreases s.len(),
{
    if s.len() == 0 {
        assert(s.push(e)[0] == e);
        assert(s.push(e).drop_first() =~= s);
    } else {
        assert(s.push(e)[0] == s[0]);
        assert(s.push(e).drop_first() =~= s.drop_first().push(e));
        lemma_count_push(s.drop_first(), e, x);
    }
}

/// Removing one element takes one occurrence of it away.
pub proof fn lemma_count_remove<A>(s: Seq<A>, i: int, x: A)
    requires
        0 <= i < s.len(),
    ensures
        count_in(s, x) == count_in(s.remove(i), x) + (if s[i] == x {
            1nat
        } else {
            0nat
        }),
    decreases s.len(),
{
    if i == 0 {
        assert(s.remove(0) =~= s.drop_first());
    } else {
        assert(s.remove(i)[0] == s[0]);
        assert(s.remove(i).drop_first() =~= s.drop_first().remove(i - 1));
        lemma_count_remove(s.drop_first(), i - 1, x);
    }
}

/// A positive count names an element of the sequence, and the other way
/// round.
pub proof fn lemma_count_positive<A>(s: Seq<A>, x: A)
    ensures
        (count_in(s, x) > 0) == (exists|i: int| 0 <= i < s.len() && s[i] == x),
    decreases s.len(),
{
    if s.len() > 0 {
        lemma_count_positive(s.drop_first(), x);
        if s[0] == x {
        } else {
            assert(forall|j: int| 1 <= j < s.len() ==> s[j] == s.drop_first()[j - 1]);
            if exists|i: int| 0 <= i < s.len() && s[i] == x {
                let i = choose|i: int| 0 <= i < s.len() && s[i] == x;
                assert(s.drop_first()[i - 1] == x);
            }
        }
    }
}

/// The sequence is in non-decreasing lexical order.
pub open spec fn sorted_lex(s: Seq<Seq<char>>) -> bool {
    forall|i: int, j: int| 0 <= i < j < s.len() ==> lex_leq(#[trigger] s[i], #[trigger] s[j])
}

/// Sorts strings into non-decreasing lexical order; the result holds the
/// same strings with the same multiplicities.
pub fn sort_names(v: Vec<String>) -> (r: Vec<String>)
    ensures
        sorted_lex(strings_view(r@)),
        permutation_of(strings_view(r@), strings_view(v@)),
{
    let ghost orig = strings_view(v@);
    let mut input = v;
    let mut out: Vec<String> = Vec::new();
    proof {
        assert(strings_view(out@).len() == 0);
        assert(forall|x: Seq<char>|
            #[trigger] count_in(strings_view(out@), x) + count_in(strings_view(input@), x)
                == count_in(orig, x));
    }
    while input.len() > 0
        invariant
            sorted_lex(strings_view(out@)),
            forall|i: int, j: int|
                0 <= i < out@.len() && 0 <= j < input@.len() ==> lex_leq(
                    #[trigger] strings_view(out@)[i],
                    #[trigger] strings_view(input@)[j],
                ),
            forall|x: Seq<char>|
                #[trigger] count_in(strings_view(out@), x) + count_in(strings_view(input@), x)
                    == count_in(orig, x),
        decreases input@.len(),
    {
        let ghost in0 = strings_view(input@);
        let ghost out0 = strings_view(out@);
        let mut min: usize = 0;
        let mut k: usize = 1;
        while k < input.len()
            invariant
                input@.len() > 0,
                min < k,
                k <= input@.len(),
                in0 == strings_view(input@),
                forall|j: int|
                    0 <= j < k ==> lex_leq(strings_view(input@)[min as int], #[trigger] strings_view(
                        input@,
                    )[j]),
            decreases input@.len() - k,
        {
            if str_lex_lt(input[k].as_str(), input[min].as_str()) {
                proof {
                    lemma_lex_irrefl(input@[k as int]@);
                    assert forall|j: int| 0 <= j < k + 1 implies lex_leq(
                        strings_view(input@)[k as int],
                        #[trigger] strings_view(input@)[j],
                    ) by {
                        if j < k {
                            let a = strings_view(input@)[k as int];
                            let b = strings_view(input@)[min as int];
                            let c = strings_view(input@)[j];
                            if b == c {
                            } else {
                                lemma_lex_trans(a, b, c);
                            }
                        }
                    }
                }
                min = k;
            } else {
                proof {
                    lemma_lex_total(input@[k as int]@, input@[min as int]@);
                }
            }
            k += 1;
        }
        let x = input.remove(min);
        out.push(x);
        proof {
            assert(strings_view(input@) =~= in0.remove(min as int));
            assert(strings_view(out@) =~= out0.push(in0[min as int]));
            assert forall|y: Seq<char>|
                #[trigger] count_in(strings_view(out@), y) + count_in(strings_view(input@), y)
                    == count_in(orig, y) by {
                lemma_count_push(out0, in0[min as int], y);
                lemma_count_remove(in0, min as int, y);
            }
            assert forall|i: int, j: int|
                0 <= i < j < strings_view(out@).len() implies lex_leq(
                #[trigger] strings_view(out@)[i],
                #[trigger] strings_view(out@)[j],
            ) by {
                if j < out0.len() {
                    assert(lex_leq(out0[i], out0[j]));
                } else {
                    assert(strings_view(out@)[j] == in0[min as int]);
                    assert(lex_leq(out0[i], in0[min as int]));
                }
            }
            assert forall|i: int, j: int|
                0 <= i < out@.len() && 0 <= j < input@.len() implies lex_leq(
                #[trigger] strings_view(out@)[i],
                #[trigger] strings_view(input@)[j],
            ) by {
                let a = strings_view(out@)[i];
                if i < out0.len() {
                    assert(lex_leq(a, strings_view(input@)[j]));
                } else {
                    assert(a == in0[min as int]);
                    if j < min {
                        assert(in0.remove(min as int)[j] == in0[j]);
                        assert(lex_leq(a, in0[j]));
                    } else {
                        assert(in0.remove(min as int)[j] == in0[j + 1]);
                        assert(lex_leq(a, in0[j + 1]));
                    }
                }
            }
        }
    }
    proof {
        assert(forall|x: Seq<char>| count_in(strings_view(input@), x) == 0);
    }
    out
}

/// Character-by-character strict lexical comparison.
pub fn str_lex_lt(a: &str, b: &str) -> (r: bool)
    ensures
        r == lex_lt(a@, b@),
{
    let a_len = a.unicode_len();
    let b_len = b.unicode_len();
    proof {
        assert(a@.subrange(0, a_len as int) =~= a@);
        assert(b@.subrange(0, b_len as int) =~= b@);
    }
    let mut i: usize = 0;
    loop
        invariant
            i <= a_len,
            i <= b_len,
            a_len == a@.len(),
            b_len == b@.len(),
            lex_lt(a@, b@) == lex_lt(
                a@.subrange(i as int, a_len as int),
                b@.subrange(i as int, b_len as int),
            ),
        decreases a_len - i,
    {
        if i >= a_len || i >= b_len {
            return i >= a_len && i < b_len;
        }
        let ca = a.get_char(i);
        let cb = b.get_char(i);
        proof {
            assert(a@.subrange(i as int, a_len as int)[0] == a@[i as int]);
            assert(b@.subrange(i as int, b_len as int)[0] == b@[i as int]);
        }
        if ca != cb {
            return (ca as u32) < (cb as u32);
        }
        proof {
            assert(a@.subrange(i as int, a_len as int).drop_first() =~= a@.subrange(
                i + 1,
                a_len as int,
            ));
            assert(b@.subrange(i as int, b_len as int).drop_first() =~= b@.subrange(
                i + 1,
                b_len as int,
            ));
        }
        i += 1;
    }
}

} // verus!
