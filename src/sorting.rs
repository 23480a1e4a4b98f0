//! Sorting of rows that a strict total order ranks by a unique identifier.
use vstd::prelude::*;

verus! {

/// Rows ranked by a strict order that is total on rows with distinct
/// identifiers.
pub trait Ranked: Sized {
    spec fn ident(&self) -> int;

    spec fn ranks_before(&self, other: &Self) -> bool;

    fn ranks_before_exec(&self, other: &Self) -> (r: bool)
        ensures
            r == self.ranks_before(other),
    ;

    proof fn lemma_rank_order(a: &Self, b: &Self, c: &Self)
        ensures
            !a.ranks_before(a),
            a.ident() != b.ident() ==> a.ranks_before(b) || b.ranks_before(a),
            a.ranks_before(b) && b.ranks_before(c) ==> a.ranks_before(c),
    ;
}

/// Whether `s` is in strictly increasing rank.
pub open spec fn rank_sorted<T: Ranked>(s: Seq<T>) -> bool {
    forall|i: int, j: int| 0 <= i < j < s.len() ==> s[i].ranks_before(&s[j])
}

/// Whether no two rows of `s` share an identifier.
pub open spec fn idents_unique<T: Ranked>(s: Seq<T>) -> bool {
    forall|i: int, j: int| 0 <= i < j < s.len() ==> s[i].ident() != s[j].ident()
}

/// The rows of `rows` in increasing rank.
pub fn sort_ranked<T: Ranked>(rows: Vec<T>) -> (r: Vec<T>)
    requires
        idents_unique(rows@),
    ensures
        rank_sorted(r@),
        forall|x: T| r@.contains(x) <==> rows@.contains(x),
        r@.len() == rows@.len(),
{
    let ghost orig = rows@;
    let mut rest = rows;
    let mut out: Vec<T> = Vec::new();
    while rest.len() > 0
        invariant
            rank_sorted(out@),
            idents_unique(rest@),
            forall|a: int, b: int|
                0 <= a < out@.len() && 0 <= b < rest@.len() ==> #[trigger] out@[a].ident()
                    != #[trigger] rest@[b].ident(),
            forall|y: T| orig.contains(y) <==> (out@.contains(y) || rest@.contains(y)),
            out@.len() + rest@.len() == orig.len(),
        decreases rest@.len(),
    {
        let ghost old_rest = rest@;
        let ghost old_out = out@;
        let x = rest.pop().unwrap();
        assert(rest@ =~= old_rest.drop_last());
        assert(x == old_rest.last());
        let mut k: usize = 0;
        while k < out.len() && !x.ranks_before_exec(&out[k])
            invariant
                k <= out@.len(),
                out@ == old_out,
                forall|m: int| 0 <= m < k ==> !x.ranks_before(#[trigger] &out@[m]),
            decreases out@.len() - k,
        {
            k = k + 1;
        }
        assert forall|m: int| 0 <= m < k implies (#[trigger] old_out[m]).ranks_before(&x) by {
            T::lemma_rank_order(&x, &old_out[m], &x);
            assert(old_out[m].ident() != old_rest[old_rest.len() - 1].ident());
        }
        out.insert(k, x);
        proof {
            old_out.insert_ensures(k as int, x);
            assert forall|a: int, b: int| 0 <= a < b < out@.len() implies out@[a].ranks_before(
                &out@[b],
            ) by {
                if a == k && b > k {
                    T::lemma_rank_order(&x, &old_out[k as int], &old_out[b - 1]);
                }
            }
            assert forall|a: int, b: int|
                0 <= a < out@.len() && 0 <= b < rest@.len() implies #[trigger] out@[a].ident()
                != #[trigger] rest@[b].ident() by {
                assert(rest@[b] == old_rest[b]);
                if a < k {
                } else if a > k {
                    assert(out@[a] == old_out[a - 1]);
                } else {
                    assert(out@[a] == old_rest[old_rest.len() - 1]);
                }
            }
            assert forall|y: T| orig.contains(y) <==> (out@.contains(y) || rest@.contains(y)) by {
                if out@.contains(y) {
                    let a = choose|a: int| 0 <= a < out@.len() && out@[a] == y;
                    if a < k {
                        assert(old_out[a] == y);
                    } else if a > k {
                        assert(old_out[a - 1] == y);
                    } else {
                        assert(old_rest[old_rest.len() - 1] == y);
                    }
                }
                if rest@.contains(y) {
                    let b = choose|b: int| 0 <= b < rest@.len() && rest@[b] == y;
                    assert(old_rest[b] == y);
                }
                if old_out.contains(y) {
                    let a = choose|a: int| 0 <= a < old_out.len() && old_out[a] == y;
                    if a < k {
                        assert(out@[a] == y);
                    } else {
                        assert(out@[a + 1] == y);
                    }
                }
                if old_rest.contains(y) {
                    let b = choose|b: int| 0 <= b < old_rest.len() && old_rest[b] == y;
                    if b < rest@.len() {
                        assert(rest@[b] == y);
                    } else {
                        assert(out@[k as int] == y);
                    }
                }
            }
        }
    }
    out
}

} // verus!
