//! Putting rows into groups the way a sorted map would: each distinct key
//! once, in key order.
//!
//! A key is a run of text and a number, compared text first. Every grouping
//! the checks make fits that shape: an order id is a number with no text, a
//! delivery street is text with no number, a stop is its route's nickname and
//! its sequence.

use vstd::prelude::*;

use crate::chars::{lemma_text_order, slice_of, text_at_most, text_le, text_lt};

verus! {

/// A grouping key: text, then a number.
pub type Key = (Seq<char>, int);

/// Key order: by text, then by number.
pub open spec fn key_lt(a: Key, b: Key) -> bool {
    text_lt(a.0, b.0) || (a.0 == b.0 && a.1 < b.1)
}

/// Key order is a strict total order.
pub proof fn lemma_key_order(a: Key, b: Key, c: Key)
    ensures
        !key_lt(a, a),
        key_lt(a, b) || key_lt(b, a) || a == b,
        key_lt(a, b) ==> !key_lt(b, a),
        key_lt(a, b) && key_lt(b, c) ==> key_lt(a, c),
{
    lemma_text_order(a.0, b.0, c.0);
    lemma_text_order(b.0, a.0, c.0);
    lemma_text_order(a.0, c.0, b.0);
    lemma_text_order(b.0, c.0, a.0);
    lemma_text_order(c.0, a.0, b.0);
    lemma_text_order(c.0, b.0, a.0);
}

/// Whether every key is before the next, so none repeats.
pub open spec fn ascending_keys(s: Seq<Key>) -> bool {
    forall|i: int, j: int| 0 <= i < j < s.len() ==> key_lt(s[i], s[j])
}

/// The members of a set of keys, in key order.
pub open spec fn ordered(keys: Set<Key>) -> Seq<Key> {
    choose|s: Seq<Key>| ascending_keys(s) && s.to_set() == keys
}

/// The distinct texts of a set, in text order.
pub open spec fn ordered_texts(texts: Set<Seq<char>>) -> Seq<Seq<char>> {
    ordered(texts.map(|t: Seq<char>| (t, 0int))).map_values(|k: Key| k.0)
}

/// Two ascending runs with the same members are the same run.
pub proof fn lemma_ordered_unique(a: Seq<Key>, b: Seq<Key>)
    requires
        ascending_keys(a),
        ascending_keys(b),
        a.to_set() == b.to_set(),
    ensures
        a == b,
    decreases a.len(),
{
    if a.len() == 0 {
        if b.len() > 0 {
            assert(b.to_set().contains(b[0]));
        }
        assert(a =~= b);
    } else if b.len() == 0 {
        assert(a.to_set().contains(a[0]));
    } else {
        assert(a.to_set().contains(a[0]));
        assert(b.to_set().contains(b[0]));
        let i = choose|i: int| 0 <= i < b.len() && b[i] == a[0];
        let j = choose|j: int| 0 <= j < a.len() && a[j] == b[0];
        lemma_key_order(a[0], b[0], a[0]);
        assert(a[0] == b[0]) by {
            if key_lt(a[0], b[0]) {
                assert(i > 0);
                assert(key_lt(b[0], b[i]));
                lemma_key_order(a[0], b[0], a[0]);
            } else if key_lt(b[0], a[0]) {
                assert(j > 0);
                assert(key_lt(a[0], a[j]));
                lemma_key_order(b[0], a[0], b[0]);
            }
        }
        let x = a[0];
        assert(a.drop_first().to_set() =~= b.drop_first().to_set()) by {
            assert forall|y: Key| a.drop_first().to_set().contains(y) implies b.drop_first().to_set().contains(y) by {
                let k = choose|k: int| 0 <= k < a.drop_first().len() && a.drop_first()[k] == y;
                assert(a[k + 1] == y);
                assert(b.to_set().contains(y));
                let m = choose|m: int| 0 <= m < b.len() && b[m] == y;
                assert(key_lt(a[0], a[k + 1]));
                lemma_key_order(y, y, y);
                assert(m != 0);
                assert(b.drop_first()[m - 1] == y);
            }
            assert forall|y: Key| b.drop_first().to_set().contains(y) implies a.drop_first().to_set().contains(y) by {
                let k = choose|k: int| 0 <= k < b.drop_first().len() && b.drop_first()[k] == y;
                assert(b[k + 1] == y);
                assert(a.to_set().contains(y));
                let m = choose|m: int| 0 <= m < a.len() && a[m] == y;
                assert(key_lt(b[0], b[k + 1]));
                lemma_key_order(y, y, y);
                assert(m != 0);
                assert(a.drop_first()[m - 1] == y);
            }
        }
        lemma_ordered_unique(a.drop_first(), b.drop_first());
        assert(a =~= seq![x] + a.drop_first());
        assert(b =~= seq![x] + b.drop_first());
    }
}

/// A key put into an ascending run where it belongs, unless it is there.
pub open spec fn insert_key(run: Seq<Key>, x: Key) -> Seq<Key>
    decreases run.len(),
{
    if run.len() == 0 {
        seq![x]
    } else if key_lt(x, run.last()) {
        insert_key(run.drop_last(), x).push(run.last())
    } else if x == run.last() {
        run
    } else {
        run.push(x)
    }
}

proof fn lemma_insert_key(run: Seq<Key>, x: Key)
    requires
        ascending_keys(run),
    ensures
        ascending_keys(insert_key(run, x)),
        insert_key(run, x).to_set() == run.to_set().insert(x),
    decreases run.len(),
{
    if run.len() == 0 {
        assert(seq![x].to_set() =~= Set::<Key>::empty().insert(x)) by {
            assert forall|y: Key| seq![x].to_set().contains(y) implies y == x by {
                let k = choose|k: int| 0 <= k < 1 && seq![x][k] == y;
            }
            assert(seq![x][0] == x);
        }
        assert(run.to_set() =~= Set::<Key>::empty());
    } else {
        let front = run.drop_last();
        let last = run.last();
        assert(front.push(last) =~= run);
        assert(ascending_keys(front)) by {
            assert forall|i: int, j: int| 0 <= i < j < front.len() implies key_lt(front[i], front[j]) by {
                assert(front[i] == run[i] && front[j] == run[j]);
            }
        }
        assert forall|y: Key| #[trigger] front.to_set().contains(y) implies key_lt(y, last) by {
            let k = choose|k: int| 0 <= k < front.len() && front[k] == y;
            assert(run[k] == y);
        }
        lemma_push_set(front, last);
        if key_lt(x, last) {
            lemma_insert_key(front, x);
            let inner = insert_key(front, x);
            lemma_push_set(inner, last);
            assert forall|i: int, j: int| 0 <= i < j < inner.push(last).len() implies key_lt(
                inner.push(last)[i],
                inner.push(last)[j],
            ) by {
                if j == inner.len() {
                    assert(inner.to_set().contains(inner[i]));
                } else {
                    assert(inner.push(last)[i] == inner[i] && inner.push(last)[j] == inner[j]);
                }
            }
            assert(inner.push(last).to_set() =~= run.to_set().insert(x));
        } else if x == last {
            assert(run.to_set().contains(last)) by {
                assert(run[run.len() - 1] == last);
            }
            assert(run.to_set() =~= run.to_set().insert(x));
        } else {
            lemma_key_order(x, last, x);
            lemma_push_set(run, x);
            assert forall|i: int, j: int| 0 <= i < j < run.push(x).len() implies key_lt(
                run.push(x)[i],
                run.push(x)[j],
            ) by {
                if j == run.len() {
                    if i < run.len() - 1 {
                        assert(key_lt(run[i], last));
                        lemma_key_order(run[i], last, x);
                    }
                } else {
                    assert(run.push(x)[i] == run[i] && run.push(x)[j] == run[j]);
                }
            }
        }
    }
}

/// Pushing onto a run adds one member.
proof fn lemma_push_set(run: Seq<Key>, x: Key)
    ensures
        run.push(x).to_set() == run.to_set().insert(x),
{
    assert forall|y: Key| run.push(x).to_set().contains(y) <==> run.to_set().insert(x).contains(y) by {
        if run.push(x).to_set().contains(y) {
            let k = choose|k: int| 0 <= k < run.push(x).len() && run.push(x)[k] == y;
            if k < run.len() {
                assert(run[k] == y);
            }
        }
        if run.to_set().contains(y) {
            let k = choose|k: int| 0 <= k < run.len() && run[k] == y;
            assert(run.push(x)[k] == y);
        }
        if y == x {
            assert(run.push(x)[run.len() as int] == y);
        }
    }
    assert(run.push(x).to_set() =~= run.to_set().insert(x));
}

/// The keys of a run, each once, in key order.
pub open spec fn sorted_keys(keys: Seq<Key>) -> Seq<Key>
    decreases keys.len(),
{
    if keys.len() == 0 {
        Seq::empty()
    } else {
        insert_key(sorted_keys(keys.drop_last()), keys.last())
    }
}

/// The members of the keys of any run can be put in key order, so
/// [`ordered`] gives an ascending run of exactly those members.
pub proof fn lemma_ordered_members(keys: Seq<Key>)
    ensures
        ascending_keys(ordered(keys.to_set())),
        ordered(keys.to_set()).to_set() == keys.to_set(),
{
    lemma_sorted_keys(keys);
}

proof fn lemma_sorted_keys(keys: Seq<Key>)
    ensures
        ascending_keys(sorted_keys(keys)),
        sorted_keys(keys).to_set() == keys.to_set(),
    decreases keys.len(),
{
    if keys.len() == 0 {
        assert(keys.to_set() =~= Set::<Key>::empty());
        assert(Seq::<Key>::empty().to_set() =~= Set::<Key>::empty());
    } else {
        lemma_sorted_keys(keys.drop_last());
        lemma_insert_key(sorted_keys(keys.drop_last()), keys.last());
        lemma_push_set(keys.drop_last(), keys.last());
        assert(keys.drop_last().push(keys.last()) =~= keys);
    }
}

/// A key as the program holds it.
pub open spec fn key_view(k: (Vec<char>, i64)) -> Key {
    (k.0@, k.1 as int)
}

/// Keys as the program holds them, viewed.
pub open spec fn views(keys: Seq<(Vec<char>, i64)>) -> Seq<Key> {
    keys.map_values(|k: (Vec<char>, i64)| key_view(k))
}

/// Whether one key comes strictly before another.
pub fn key_less(a: &(Vec<char>, i64), b: &(Vec<char>, i64)) -> (less: bool)
    ensures
        less == key_lt(key_view(*a), key_view(*b)),
{
    let ab = text_at_most(a.0.as_slice(), b.0.as_slice());
    let ba = text_at_most(b.0.as_slice(), a.0.as_slice());
    proof {
        lemma_text_order(a.0@, b.0@, a.0@);
    }
    if ab && ba {
        a.1 < b.1
    } else {
        ab
    }
}

/// A copy of a key.
pub fn copy_key(k: &(Vec<char>, i64)) -> (copy: (Vec<char>, i64))
    ensures
        key_view(copy) == key_view(*k),
{
    (slice_of(k.0.as_slice(), 0, k.0.len()), k.1)
}

/// Each distinct key once, in key order.
pub fn distinct_keys(keys: &Vec<(Vec<char>, i64)>) -> (out: Vec<(Vec<char>, i64)>)
    ensures
        views(out@) == ordered(
            views(keys@).to_set(),
        ),
        ascending_keys(views(out@)),
        views(out@).to_set() == views(keys@).to_set(),
{
    let ghost all = views(keys@);
    let mut out: Vec<(Vec<char>, i64)> = Vec::new();
    let mut i: usize = 0;
    while i < keys.len()
        invariant
            0 <= i <= keys@.len(),
            all == views(keys@),
            ascending_keys(views(out@)),
            forall|x: Key| #[trigger] views(out@).contains(x)
                <==> all.take(i as int).contains(x),
        decreases keys@.len() - i,
    {
        let ghost before = views(out@);
        let key = &keys[i];
        let ghost x = key_view(*key);
        let mut at: usize = 0;
        while at < out.len() && key_less(&out[at], key)
            invariant
                0 <= at <= out@.len(),
                views(out@) == before,
                x == key_view(*key),
                forall|k: int| 0 <= k < at ==> key_lt(before[k], x),
            decreases out@.len() - at,
        {
            at = at + 1;
        }
        let fresh = at == out.len() || key_less(key, &out[at]);
        if fresh {
            out.insert(at, copy_key(key));
            proof {
                let now = views(out@);
                assert(now =~= before.insert(at as int, x));
                assert forall|p: int, q: int| 0 <= p < q < now.len() implies key_lt(now[p], now[q]) by {
                    if q < at {
                    } else if p < at && q == at {
                    } else if p < at {
                        assert(now[q] == before[q - 1]);
                        if at < before.len() {
                            lemma_key_order(now[p], x, before[at as int]);
                            lemma_key_order(now[p], before[at as int], before[q - 1]);
                            lemma_key_order(x, before[at as int], before[q - 1]);
                        }
                    } else if p == at {
                        assert(now[q] == before[q - 1]);
                        lemma_key_order(x, before[at as int], before[q - 1]);
                    } else {
                        assert(now[q] == before[q - 1]);
                        assert(now[p] == before[p - 1]);
                    }
                }
                assert forall|y: Key| now.contains(y) <==> (before.contains(y) || y == x) by {
                    if now.contains(y) {
                        let k = choose|k: int| 0 <= k < now.len() && now[k] == y;
                        if k < at {
                            assert(before[k] == y);
                        } else if k > at {
                            assert(before[k - 1] == y);
                        }
                    }
                    if before.contains(y) {
                        let k = choose|k: int| 0 <= k < before.len() && before[k] == y;
                        if k < at {
                            assert(now[k] == y);
                        } else {
                            assert(now[k + 1] == y);
                        }
                    }
                    if y == x {
                        assert(now[at as int] == y);
                    }
                }
            }
        } else {
            proof {
                lemma_key_order(before[at as int], x, before[at as int]);
                assert(before[at as int] == x);
                assert(forall|y: Key| before.contains(y) <==> (before.contains(y) || y == x));
            }
        }
        proof {
            let now = views(out@);
            let seen = all.take(i as int);
            let next = all.take(i + 1);
            assert(next =~= seen.push(x));
            assert forall|y: Key| #[trigger] now.contains(y) <==> next.contains(y) by {
                assert(now.contains(y) <==> (before.contains(y) || y == x));
                assert(before.contains(y) <==> seen.contains(y));
                if next.contains(y) {
                    let k = choose|k: int| 0 <= k < next.len() && next[k] == y;
                    if k < seen.len() {
                        assert(seen[k] == y);
                    }
                }
                if seen.contains(y) {
                    let k = choose|k: int| 0 <= k < seen.len() && seen[k] == y;
                    assert(next[k] == y);
                }
                if y == x {
                    assert(next[seen.len() as int] == y);
                }
            }
        }
        i = i + 1;
    }
    proof {
        let now = views(out@);
        assert(all.take(keys@.len() as int) =~= all);
        assert(now.to_set() =~= all.to_set()) by {
            assert forall|y: Key| now.to_set().contains(y) <==> all.to_set().contains(y) by {
                assert(now.contains(y) <==> all.take(keys@.len() as int).contains(y));
            }
        }
        let chosen = ordered(all.to_set());
        assert(ascending_keys(chosen) && chosen.to_set() == all.to_set());
        lemma_ordered_unique(now, chosen);
    }
    out
}

} // verus!
