//! Message numbers in ascending order, and how often each was seen.
use crate::text::{decimal, pad_right, push_decimal, spaces};
use std::collections::{BTreeMap, BTreeSet};
use vstd::prelude::*;
use vstd::std_specs::btree::increasing_seq;
use vstd::std_specs::iter::IteratorSpec;

verus! {

/// The members of `s` from `k` on, in ascending order.
pub open spec fn ascending_from(s: Set<u16>, k: nat) -> Seq<u16>
    decreases 65536 - k,
{
    if k >= 65536 {
        Seq::empty()
    } else if s.contains(k as u16) {
        seq![k as u16] + ascending_from(s, k + 1)
    } else {
        ascending_from(s, k + 1)
    }
}

/// The members of `s` in ascending order.
pub open spec fn ascending(s: Set<u16>) -> Seq<u16> {
    ascending_from(s, 0)
}

/// A list that ascends and holds the members of `s` from `k` on is the list of
/// them.
proof fn lemma_ascending_from(q: Seq<u16>, s: Set<u16>, k: nat)
    requires
        forall|i: int, j: int| 0 <= i < j < q.len() ==> q[i] < q[j],
        forall|i: int| 0 <= i < q.len() ==> k <= #[trigger] q[i] && s.contains(q[i]),
        forall|x: u16| k <= x && #[trigger] s.contains(x) ==> q.contains(x),
    ensures
        q == ascending_from(s, k),
    decreases 65536 - k,
{
    if k >= 65536 {
        if q.len() > 0 {
            assert(k <= q[0]);
        }
        assert(q =~= Seq::<u16>::empty());
    } else if s.contains(k as u16) {
        let x = k as u16;
        assert(q.contains(x));
        let i = choose|i: int| 0 <= i < q.len() && q[i] == x;
        if i > 0 {
            assert(q[0] < q[i]);
        }
        let rest = q.skip(1);
        assert forall|y: u16| k + 1 <= y && #[trigger] s.contains(y) implies rest.contains(y) by {
            assert(q.contains(y));
            let j = choose|j: int| 0 <= j < q.len() && q[j] == y;
            assert(rest[j - 1] == y);
        }
        assert forall|j: int| 0 <= j < rest.len() implies k + 1 <= #[trigger] rest[j] && s.contains(
            rest[j],
        ) by {
            assert(rest[j] == q[j + 1]);
            assert(q[0] < q[j + 1]);
        }
        lemma_ascending_from(rest, s, k + 1);
        assert(q =~= seq![x] + rest);
    } else {
        assert forall|i: int| 0 <= i < q.len() implies k + 1 <= #[trigger] q[i] && s.contains(
            q[i],
        ) by {
            assert(k <= q[i] && s.contains(q[i]));
        }
        lemma_ascending_from(q, s, k + 1);
    }
}

/// A list that ascends and holds the members of `s`, and nothing else, is the list of
/// them.
pub proof fn lemma_ascending(q: Seq<u16>, s: Set<u16>)
    requires
        forall|i: int, j: int| 0 <= i < j < q.len() ==> q[i] < q[j],
        q.to_set() == s,
    ensures
        q == ascending(s),
{
    assert forall|i: int| 0 <= i < q.len() implies 0 <= #[trigger] q[i] && s.contains(q[i]) by {
        assert(q.contains(q[i]));
    }
    assert forall|x: u16| 0 <= x && #[trigger] s.contains(x) implies q.contains(x) by {
        assert(q.to_set().contains(x));
    }
    lemma_ascending_from(q, s, 0);
}

/// What the walk of an ordered collection of numbers yields ascends.
proof fn lemma_walk_ascends(s: Seq<&u16>)
    requires
        increasing_seq(s),
    ensures
        forall|i: int, j: int| 0 <= i < j < s.unref().len() ==> s.unref()[i] < s.unref()[j],
{
    broadcast use vstd::laws_cmp::lemma_ref_obeys_cmp_spec;

    assert(vstd::laws_cmp::obeys_cmp::<u16>());
    assert(vstd::laws_cmp::obeys_cmp::<&u16>());
    assert forall|i: int, j: int| 0 <= i < j < s.unref().len() implies s.unref()[i]
        < s.unref()[j] by {
        assert(vstd::std_specs::cmp::OrdSpec::cmp_spec(&s[i], &s[j]) is Less);
    }
}

/// The members of `set` in ascending order.
pub fn sorted_members(set: &BTreeSet<u16>) -> (v: Vec<u16>)
    ensures
        v@ == ascending(set@),
{
    let mut v: Vec<u16> = Vec::new();
    let ghost all = IteratorSpec::remaining(&set.iter());
    for k in it: set.iter()
        invariant
            it.seq() == all,
            v@ == all.unref().take(it.index() as int),
    {
        v.push(*k);
        assert(v@ =~= all.unref().take(it.index() + 1));
    }
    proof {
        assert(all.unref().take(all.len() as int) =~= all.unref());
        lemma_walk_ascends(all);
        lemma_ascending(v@, set@);
    }
    v
}

/// The keys of `map` in ascending order.
pub fn sorted_keys<V>(map: &BTreeMap<u16, V>) -> (v: Vec<u16>)
    ensures
        v@ == ascending(map@.dom()),
{
    let mut v: Vec<u16> = Vec::new();
    let ghost all = IteratorSpec::remaining(&map.keys());
    for k in it: map.keys()
        invariant
            it.seq() == all,
            v@ == all.unref().take(it.index() as int),
    {
        v.push(*k);
        assert(v@ =~= all.unref().take(it.index() + 1));
    }
    proof {
        assert(all.unref().take(all.len() as int) =~= all.unref());
        lemma_walk_ascends(all);
        lemma_ascending(v@, map@.dom());
    }
    v
}

/// The line that says how often the message number `k` was seen.
pub open spec fn type_line_of(k: u16, n: nat) -> Seq<char> {
    "        "@ + pad_right(decimal(k as nat), 5) + " ×"@ + decimal(n)
}

/// The line that says how often the message number `k` was seen.
pub fn type_line(k: u16, n: u64) -> (s: String)
    ensures
        s@ == type_line_of(k, n as nat),
{
    let mut digits = String::new();
    push_decimal(&mut digits, k as u64);
    assert(digits@ =~= decimal(k as nat));
    proof {
        reveal_strlit(" ");
    }
    let len: usize = digits.as_str().unicode_len();
    let mut i: usize = len;
    assert(digits@ =~= decimal(k as nat) + spaces(0));
    while i < 5
        invariant
            len == decimal(k as nat).len(),
            i <= 5 || i == len,
            len <= i,
            " "@ == seq![' '],
            digits@ == decimal(k as nat) + spaces((i - len) as nat),
        decreases 5 - i,
    {
        digits.append(" ");
        assert(digits@ =~= decimal(k as nat) + spaces((i + 1 - len) as nat));
        i = i + 1;
    }
    assert(digits@ =~= pad_right(decimal(k as nat), 5));
    let mut s = "        ".to_string();
    s.append(digits.as_str());
    s.append(" ×");
    push_decimal(&mut s, n);
    s
}

/// The list of members ascends.
pub proof fn law_listing_ascends(s: Set<u16>, k: nat)
    ensures
        forall|i: int, j: int|
            0 <= i < j < ascending_from(s, k).len() ==> ascending_from(s, k)[i] < ascending_from(
                s,
                k,
            )[j],
        forall|i: int| 0 <= i < ascending_from(s, k).len() ==> k <= #[trigger] ascending_from(s, k)[i],
    decreases 65536 - k,
{
    if k < 65536 {
        law_listing_ascends(s, k + 1);
        let rest = ascending_from(s, k + 1);
        let all = ascending_from(s, k);
        if s.contains(k as u16) {
            assert forall|i: int| 0 <= i < all.len() implies k <= #[trigger] all[i] by {
                if i > 0 {
                    assert(all[i] == rest[i - 1]);
                }
            }
            assert forall|i: int, j: int| 0 <= i < j < all.len() implies all[i] < all[j] by {
                assert(all[j] == rest[j - 1]);
                if i > 0 {
                    assert(all[i] == rest[i - 1]);
                }
            }
        } else {
            assert forall|i: int| 0 <= i < all.len() implies k <= #[trigger] all[i] by {
                assert(k + 1 <= rest[i]);
            }
        }
    }
}

/// A number above all members is listed behind them.
pub proof fn law_greatest_is_listed_last(s: Set<u16>, t: u16)
    requires
        forall|x: u16| #[trigger] s.contains(x) ==> x < t,
    ensures
        ascending(s.insert(t)) == ascending(s).push(t),
{
    let a = ascending(s);
    let q = a.push(t);
    law_listing_ascends(s, 0);
    assert forall|i: int| 0 <= i < a.len() implies s.contains(#[trigger] a[i]) by {
        assert(a.contains(a[i]));
        lemma_ascending_members(s, 0, a[i]);
    }
    assert forall|x: u16| q.to_set().contains(x) <==> s.insert(t).contains(x) by {
        lemma_ascending_members(s, 0, x);
        if a.contains(x) {
            let i = choose|i: int| 0 <= i < a.len() && a[i] == x;
            assert(q[i] == x);
        }
        if q.contains(x) {
            let i = choose|i: int| 0 <= i < q.len() && q[i] == x;
            if i < a.len() {
                assert(a[i] == x);
            }
        }
        assert(q[a.len() as int] == t);
    }
    assert(q.to_set() =~= s.insert(t));
    lemma_ascending(q, s.insert(t));
}

/// Nothing is listed of nothing.
pub proof fn law_nothing_is_listed_of_nothing()
    ensures
        ascending(Set::<u16>::empty()) == Seq::<u16>::empty(),
{
    let none = Seq::<u16>::empty();
    assert(none.to_set() =~= Set::<u16>::empty());
    lemma_ascending(none, Set::<u16>::empty());
}

/// Every member is listed, and nothing else.
pub proof fn lemma_ascending_members(s: Set<u16>, k: nat, x: u16)
    ensures
        ascending_from(s, k).contains(x) <==> k <= x && s.contains(x),
    decreases 65536 - k,
{
    if k < 65536 {
        lemma_ascending_members(s, k + 1, x);
        let rest = ascending_from(s, k + 1);
        let all = ascending_from(s, k);
        if s.contains(k as u16) {
            assert(all[0] == k as u16);
            if rest.contains(x) {
                let i = choose|i: int| 0 <= i < rest.len() && rest[i] == x;
                assert(all[i + 1] == x);
            }
            if all.contains(x) {
                let i = choose|i: int| 0 <= i < all.len() && all[i] == x;
                if i > 0 {
                    assert(rest[i - 1] == x);
                }
            }
        }
    }
}

} // verus!
