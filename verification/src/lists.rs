use vstd::prelude::*;

verus! {

/// Appending `x` adds `x` to what a sequence contains and nothing else.
pub proof fn lemma_push_contains(s: Seq<usize>, x: usize)
    ensures
        forall|y: usize| #[trigger] s.push(x).contains(y) <==> (s.contains(y) || y == x),
{
    assert forall|y: usize| #[trigger] s.push(x).contains(y) <==> (s.contains(y) || y == x) by {
        if s.contains(y) {
            let i = s.index_of(y);
            assert(s.push(x)[i] == y);
        }
        if y == x {
            assert(s.push(x)[s.len() as int] == y);
        }
        if s.push(x).contains(y) {
            let i = s.push(x).index_of(y);
            if i < s.len() {
                assert(s[i] == y);
            }
        }
    }
}

/// Appending something new keeps a sequence free of duplicates.
pub proof fn lemma_push_no_duplicates(s: Seq<usize>, x: usize)
    requires
        s.no_duplicates(),
        !s.contains(x),
    ensures
        s.push(x).no_duplicates(),
{
    assert forall|i: int, j: int|
        0 <= i < s.push(x).len() && 0 <= j < s.push(x).len() && i != j implies s.push(x)[i]
        != s.push(x)[j] by {
        if i < s.len() {
            assert(s.contains(s[i]));
        }
        if j < s.len() {
            assert(s.contains(s[j]));
        }
    }
}

/// Taking `x` out of a sequence without duplicates leaves exactly the other
/// elements, still without duplicates and in their old order.
pub proof fn lemma_remove_value(s: Seq<usize>, x: usize)
    requires
        s.no_duplicates(),
    ensures
        s.remove_value(x).no_duplicates(),
        forall|y: usize| #[trigger] s.remove_value(x).contains(y) <==> (s.contains(y) && y != x),
        !s.contains(x) ==> s.remove_value(x) == s,
        forall|i: int| 0 <= i < s.len() && s[i] == x ==> s.remove_value(x) == s.remove(i),
{
    s.index_of_first_ensures(x);
    match s.index_of_first(x) {
        None => {},
        Some(k) => {
            let r = s.remove(k);
            assert(s.remove_value(x) == r);
            s.remove_ensures(k);
            assert forall|i: int, j: int| 0 <= i < r.len() && 0 <= j < r.len() && i != j implies r[i]
                != r[j] by {
                let si = if i < k { i } else { i + 1 };
                let sj = if j < k { j } else { j + 1 };
                assert(r[i] == s[si]);
                assert(r[j] == s[sj]);
            }
            assert forall|y: usize| #[trigger] r.contains(y) <==> (s.contains(y) && y != x) by {
                if r.contains(y) {
                    let i = r.index_of(y);
                    let si = if i < k { i } else { i + 1 };
                    assert(r[i] == s[si]);
                    assert(s.contains(y));
                }
                if s.contains(y) && y != x {
                    let si = s.index_of(y);
                    let i = if si < k { si } else { si - 1 };
                    assert(r[i] == s[si]);
                }
            }
            assert forall|i: int| 0 <= i < s.len() && s[i] == x implies s.remove_value(x)
                == s.remove(i) by {
                assert(i == k);
            }
        },
    }
}

/// What passes a test, out of a sequence without duplicates, is a sequence
/// without duplicates of elements of the first.
pub proof fn lemma_filter_no_duplicates(s: Seq<usize>, test: spec_fn(usize) -> bool)
    requires
        s.no_duplicates(),
    ensures
        s.filter(test).no_duplicates(),
        forall|x: usize| #[trigger] s.filter(test).contains(x) ==> s.contains(x) && test(x),
    decreases s.len(),
{
    reveal(Seq::filter);
    if s.len() > 0 {
        let rest = s.drop_last();
        let last = s.last();
        lemma_filter_no_duplicates(rest, test);
        assert(!rest.contains(last)) by {
            if rest.contains(last) {
                let i = rest.index_of(last);
                assert(s[i] == s[s.len() - 1]);
            }
        }
        assert forall|x: usize| #[trigger] rest.contains(x) implies s.contains(x) by {
            let i = rest.index_of(x);
            assert(s[i] == x);
        }
        assert(s.contains(last)) by {
            assert(s[s.len() - 1] == last);
        }
        if test(last) {
            lemma_push_contains(rest.filter(test), last);
            lemma_push_no_duplicates(rest.filter(test), last);
        }
    }
}

/// Appends a copy of a list of handles to another.
pub(crate) fn copy_handles(list: &Vec<usize>, into: &mut Vec<usize>)
    ensures
        final(into)@ == old(into)@ + list@,
{
    let mut i: usize = 0;
    while i < list.len()
        invariant
            i <= list.len(),
            into@ == old(into)@ + list@.take(i as int),
        decreases list.len() - i,
    {
        into.push(list[i]);
        proof {
            assert(into@ =~= old(into)@ + list@.take(i + 1));
        }
        i += 1;
    }
    proof {
        assert(list@.take(list@.len() as int) =~= list@);
    }
}

} // verus!
