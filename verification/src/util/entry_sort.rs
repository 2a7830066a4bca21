use crate::util::key_order::{
    key_equal,
    key_less,
    key_lt,
    lemma_key_lt_total,
    lemma_key_lt_transitive,
};
use vstd::multiset::Multiset;
use vstd::prelude::*;

verus! {

/// Entries are ordered by key, then by value, then by slot.
pub open spec fn entry_lt(a: (Vec<u8>, Vec<u8>, usize), b: (Vec<u8>, Vec<u8>, usize)) -> bool {
    key_lt(a.0@, b.0@) || (a.0@ == b.0@ && (key_lt(a.1@, b.1@) || (a.1@ == b.1@ && a.2 < b.2)))
}

/// No entry comes before an earlier one.
pub open spec fn sorted_entries(s: Seq<(Vec<u8>, Vec<u8>, usize)>) -> bool {
    forall|i: int, j: int| 0 <= i < j < s.len() ==> !entry_lt(s[j], s[i])
}

pub proof fn lemma_entry_lt_transitive(
    a: (Vec<u8>, Vec<u8>, usize),
    b: (Vec<u8>, Vec<u8>, usize),
    c: (Vec<u8>, Vec<u8>, usize),
)
    requires
        entry_lt(a, b),
        entry_lt(b, c),
    ensures
        entry_lt(a, c),
{
    lemma_key_lt_total(a.0@, b.0@);
    lemma_key_lt_total(b.0@, c.0@);
    lemma_key_lt_total(a.1@, b.1@);
    lemma_key_lt_total(b.1@, c.1@);
    if key_lt(a.0@, b.0@) && key_lt(b.0@, c.0@) {
        lemma_key_lt_transitive(a.0@, b.0@, c.0@);
    }
    if key_lt(a.1@, b.1@) && key_lt(b.1@, c.1@) {
        lemma_key_lt_transitive(a.1@, b.1@, c.1@);
    }
}

/// Of two entries that are not the same key, value and slot, one comes
/// before the other.
pub proof fn lemma_entry_lt_total(a: (Vec<u8>, Vec<u8>, usize), b: (Vec<u8>, Vec<u8>, usize))
    ensures
        entry_lt(a, b) || entry_lt(b, a) || (a.0@ == b.0@ && a.1@ == b.1@ && a.2 == b.2),
        !(entry_lt(a, b) && entry_lt(b, a)),
{
    lemma_key_lt_total(a.0@, b.0@);
    lemma_key_lt_total(a.1@, b.1@);
}

/// Whether `a` comes before `b`.
pub fn entry_less(a: &(Vec<u8>, Vec<u8>, usize), b: &(Vec<u8>, Vec<u8>, usize)) -> (less: bool)
    ensures
        less == entry_lt(*a, *b),
{
    if key_less(a.0.as_slice(), b.0.as_slice()) {
        return true;
    }
    if !key_equal(a.0.as_slice(), b.0.as_slice()) {
        return false;
    }
    if key_less(a.1.as_slice(), b.1.as_slice()) {
        return true;
    }
    if !key_equal(a.1.as_slice(), b.1.as_slice()) {
        return false;
    }
    a.2 < b.2
}

/// Sorts entries by key, then value, then slot.
#[verifier::rlimit(50)]
pub fn sort_entries(entries: Vec<(Vec<u8>, Vec<u8>, usize)>) -> (sorted: Vec<
    (Vec<u8>, Vec<u8>, usize),
>)
    ensures
        sorted@.to_multiset() == entries@.to_multiset(),
        sorted@.len() == entries@.len(),
        sorted_entries(sorted@),
{
    broadcast use vstd::seq_lib::group_to_multiset_ensures;

    let mut rest: Vec<(Vec<u8>, Vec<u8>, usize)> = entries;
    let mut out: Vec<(Vec<u8>, Vec<u8>, usize)> = Vec::new();
    assert(out@.to_multiset().add(rest@.to_multiset()) =~= entries@.to_multiset());
    while rest.len() > 0
        invariant
            out@.to_multiset().add(rest@.to_multiset()) == entries@.to_multiset(),
            out@.len() + rest@.len() == entries@.len(),
            sorted_entries(out@),
        decreases rest@.len(),
    {
        let ghost rest_before = rest@;
        let ghost out_before = out@;
        let x: (Vec<u8>, Vec<u8>, usize) = rest.pop().unwrap();
        assert(rest_before =~= rest@.push(x));
        let mut pos: usize = 0;
        while pos < out.len() && entry_less(&out[pos], &x)
            invariant
                pos <= out@.len(),
                out@ == out_before,
                forall|k: int| 0 <= k < pos ==> entry_lt(out@[k], x),
            decreases out@.len() - pos,
        {
            pos = pos + 1;
        }
        out.insert(pos, x);
        proof {
            vstd::seq_lib::to_multiset_insert(out_before, pos as int, x);
            vstd::seq_lib::to_multiset_build(rest@, x);
            assert(out@ == out_before.insert(pos as int, x));
            assert(out@.to_multiset() == out_before.to_multiset().insert(x));
            assert(rest_before.to_multiset() == rest@.to_multiset().insert(x));
            assert(out@.to_multiset().add(rest@.to_multiset()) =~= out_before.to_multiset().add(
                rest_before.to_multiset(),
            ));
            assert forall|i: int, j: int| 0 <= i < j < out@.len() implies !entry_lt(
                out@[j],
                out@[i],
            ) by {
                if j == pos {
                    lemma_entry_lt_total(out@[i], x);
                } else if i == pos {
                    // out_before[pos] is not before x, and out_before[j - 1] is not before it
                    let first = out_before[pos as int];
                    let later = out_before[j - 1];
                    lemma_entry_lt_total(first, x);
                    lemma_entry_lt_total(later, x);
                    lemma_entry_lt_total(later, first);
                    if entry_lt(later, x) {
                        if entry_lt(x, first) {
                            lemma_entry_lt_transitive(later, x, first);
                        }
                    }
                } else {
                    let a = if i < pos {
                        i
                    } else {
                        i - 1
                    };
                    let b = if j < pos {
                        j
                    } else {
                        j - 1
                    };
                    assert(out@[i] == out_before[a]);
                    assert(out@[j] == out_before[b]);
                }
            }
        }
    }
    assert(rest@.to_multiset() =~= Multiset::<(Vec<u8>, Vec<u8>, usize)>::empty());
    assert(out@.to_multiset() =~= entries@.to_multiset());
    out
}

} // verus!
