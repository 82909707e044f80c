//! Ordered string-key sets.
//!
//! Channel and class allow-lists are kept as vectors of unique keys in
//! strictly ascending lexical order. Queries page through them in that
//! order, starting strictly after an optional cursor, with the page size
//! capped at `MAX_PAGE_SIZE`.

use vstd::prelude::*;

use crate::order::lemma_lex_lt_connex;
use crate::order::lemma_lex_lt_transitive;
use crate::order::lex_lt;
use crate::order::str_eq;
use crate::order::str_lt;

verus! {

/// Largest page a single listing query returns.
pub const MAX_PAGE_SIZE: u32 = 30;

/// The character sequences of a sequence of strings.
pub open spec fn views_of(s: Seq<String>) -> Seq<Seq<char>> {
    Seq::new(s.len(), |i: int| s[i]@)
}

/// Keys stand in strictly ascending lexical order (hence are unique).
pub open spec fn sorted_strict(v: Seq<Seq<char>>) -> bool {
    forall|i: int, j: int| 0 <= i < j < v.len() ==> lex_lt(v[i], v[j])
}

/// The store holds key `k`.
pub open spec fn has_key(s: Seq<String>, k: Seq<char>) -> bool {
    views_of(s).contains(k)
}

/// The character sequence behind an optional cursor.
pub open spec fn cursor_view(c: Option<String>) -> Option<Seq<char>> {
    match c {
        Option::Some(s) => Option::Some(s@),
        Option::None => Option::None,
    }
}

/// A key lies strictly after the cursor (no cursor admits every key).
pub open spec fn cursor_lt(cursor: Option<Seq<char>>, x: Seq<char>) -> bool {
    match cursor {
        Option::None => true,
        Option::Some(c) => lex_lt(c, x),
    }
}

/// All keys strictly after the cursor, in stored order.
pub open spec fn keys_after(v: Seq<Seq<char>>, cursor: Option<Seq<char>>) -> Seq<Seq<char>>
    decreases v.len(),
{
    if v.len() == 0 {
        Seq::empty()
    } else if cursor_lt(cursor, v[0]) {
        seq![v[0]] + keys_after(v.drop_first(), cursor)
    } else {
        keys_after(v.drop_first(), cursor)
    }
}

/// One page: the first `limit` keys strictly after the cursor.
pub open spec fn page_of(v: Seq<Seq<char>>, cursor: Option<Seq<char>>, limit: int) -> Seq<
    Seq<char>,
> {
    let ks = keys_after(v, cursor);
    if limit < ks.len() {
        ks.take(limit)
    } else {
        ks
    }
}

/// The page size actually used for a requested limit.
pub open spec fn effective_limit(limit: Option<u32>) -> int {
    match limit {
        Option::Some(l) => if l < MAX_PAGE_SIZE {
            l as int
        } else {
            MAX_PAGE_SIZE as int
        },
        Option::None => MAX_PAGE_SIZE as int,
    }
}

/// Whether the store holds `key`.
pub fn contains_key(v: &Vec<String>, key: &String) -> (r: bool)
    ensures
        r == has_key(v@, key@),
{
    let mut i: usize = 0;
    while i < v.len()
        invariant
            i <= v@.len(),
            forall|j: int| 0 <= j < i ==> v@[j]@ != key@,
        decreases v@.len() - i,
    {
        if str_eq(v[i].as_str(), key.as_str()) {
            proof {
                assert(views_of(v@)[i as int] == key@);
            }
            return true;
        }
        i = i + 1;
    }
    proof {
        assert(forall|j: int| 0 <= j < views_of(v@).len() ==> views_of(v@)[j] != key@);
    }
    false
}

/// First position whose key is not below `key`.
fn lower_bound(v: &Vec<String>, key: &String) -> (i: usize)
    ensures
        i <= v@.len(),
        forall|j: int| 0 <= j < i ==> lex_lt(v@[j]@, key@),
        i < v@.len() ==> !lex_lt(v@[i as int]@, key@),
{
    let mut i: usize = 0;
    while i < v.len()
        invariant
            i <= v@.len(),
            forall|j: int| 0 <= j < i ==> lex_lt(v@[j]@, key@),
        decreases v@.len() - i,
    {
        if !str_lt(v[i].as_str(), key.as_str()) {
            return i;
        }
        i = i + 1;
    }
    i
}

/// Add `key`, keeping the keys sorted and unique; adding a key already
/// present changes nothing.
pub fn insert_sorted(v: &mut Vec<String>, key: String)
    requires
        sorted_strict(views_of(old(v)@)),
    ensures
        sorted_strict(views_of(final(v)@)),
        forall|x: Seq<char>|
            #[trigger] has_key(final(v)@, x) <==> has_key(old(v)@, x) || x == key@,
{
    let ghost g_old = views_of(v@);
    let i = lower_bound(v, &key);
    if i < v.len() && str_eq(v[i].as_str(), key.as_str()) {
        proof {
            assert(g_old[i as int] == key@);
            assert(g_old.contains(key@));
        }
        return;
    }
    proof {
        assert(forall|j: int| 0 <= j < i ==> lex_lt(g_old[j], key@));
        if i < v.len() {
            lemma_lex_lt_connex(key@, v@[i as int]@);
            assert(lex_lt(key@, g_old[i as int]));
        }
    }
    v.insert(i, key);
    proof {
        old(v)@.insert_ensures(i as int, key);
        let g_new = views_of(v@);
        assert(g_new.len() == g_old.len() + 1);
        assert(forall|k: int| 0 <= k < i ==> g_new[k] == g_old[k]);
        assert(g_new[i as int] == key@);
        assert(forall|k: int| i < k < g_new.len() ==> g_new[k] == g_old[k - 1]);
        assert forall|p: int, q: int| 0 <= p < q < g_new.len() implies lex_lt(
            g_new[p],
            g_new[q],
        ) by {
            if q < i {
                assert(lex_lt(g_old[p], g_old[q]));
            } else if q == i {
                assert(lex_lt(g_old[p], key@));
            } else if p < i {
                assert(lex_lt(g_old[p], key@));
                if q - 1 == i {
                    assert(lex_lt(key@, g_old[i as int]));
                    lemma_lex_lt_transitive(g_old[p], key@, g_old[i as int]);
                } else {
                    assert(lex_lt(g_old[p], g_old[q - 1]));
                }
            } else if p == i {
                assert(lex_lt(key@, g_old[i as int]));
                if q - 1 > i {
                    assert(lex_lt(g_old[i as int], g_old[q - 1]));
                    lemma_lex_lt_transitive(key@, g_old[i as int], g_old[q - 1]);
                }
            } else {
                assert(lex_lt(g_old[p - 1], g_old[q - 1]));
            }
        }
        assert forall|x: Seq<char>|
            #[trigger] has_key(v@, x) <==> (g_old.contains(x) || x == key@) by {
            if has_key(v@, x) {
                let k = choose|k: int| 0 <= k < g_new.len() && g_new[k] == x;
                if k < i {
                    assert(g_old[k] == x);
                    assert(g_old.contains(x));
                } else if k > i {
                    assert(g_old[k - 1] == x);
                    assert(g_old.contains(x));
                }
            }
            if g_old.contains(x) {
                let k = choose|k: int| 0 <= k < g_old.len() && g_old[k] == x;
                if k < i {
                    assert(g_new[k] == x);
                } else {
                    assert(g_new[k + 1] == x);
                }
                assert(g_new.contains(x));
            }
            if x == key@ {
                assert(g_new[i as int] == x);
                assert(g_new.contains(x));
            }
        }
    }
}

proof fn lemma_views_push(s: Seq<String>, x: String)
    ensures
        views_of(s.push(x)) == views_of(s).push(x@),
{
    assert(views_of(s.push(x)) =~= views_of(s).push(x@));
}

proof fn lemma_keys_after_push(v: Seq<Seq<char>>, cursor: Option<Seq<char>>, x: Seq<char>)
    ensures
        keys_after(v.push(x), cursor) == if cursor_lt(cursor, x) {
            keys_after(v, cursor).push(x)
        } else {
            keys_after(v, cursor)
        },
    decreases v.len(),
{
    reveal_with_fuel(keys_after, 3);
    if v.len() == 0 {
        assert(v.push(x)[0] == x);
        assert(v.push(x).drop_first() =~= Seq::<Seq<char>>::empty());
        if cursor_lt(cursor, x) {
            assert(keys_after(v.push(x), cursor) =~= keys_after(v, cursor).push(x));
        } else {
            assert(keys_after(v.push(x), cursor) =~= keys_after(v, cursor));
        }
    } else {
        assert(v.push(x)[0] == v[0]);
        assert(v.push(x).drop_first() =~= v.drop_first().push(x));
        lemma_keys_after_push(v.drop_first(), cursor, x);
        if cursor_lt(cursor, x) {
            assert(keys_after(v.push(x), cursor) =~= keys_after(v, cursor).push(x));
        } else {
            assert(keys_after(v.push(x), cursor) =~= keys_after(v, cursor));
        }
    }
}

/// List one page of keys: those strictly after `start_after`, in ascending
/// order, at most `limit` (capped at `MAX_PAGE_SIZE`) of them.
pub fn page_keys(v: &Vec<String>, start_after: &Option<String>, limit: Option<u32>) -> (r: Vec<
    String,
>)
    ensures
        views_of(r@) == page_of(
            views_of(v@),
            cursor_view(*start_after),
            effective_limit(limit),
        ),
{
    let eff: usize = match limit {
        Option::Some(l) => if l < MAX_PAGE_SIZE {
            l as usize
        } else {
            MAX_PAGE_SIZE as usize
        },
        Option::None => MAX_PAGE_SIZE as usize,
    };
    let ghost gv = views_of(v@);
    let ghost cur = cursor_view(*start_after);
    let mut out: Vec<String> = Vec::new();
    let mut i: usize = 0;
    proof {
        assert(gv.take(0) =~= Seq::<Seq<char>>::empty());
    }
    while i < v.len()
        invariant
            i <= v@.len(),
            gv == views_of(v@),
            cur == cursor_view(*start_after),
            eff == effective_limit(limit),
            out@.len() <= eff,
            views_of(out@) == page_of(gv.take(i as int), cur, eff as int),
        decreases v@.len() - i,
    {
        let ghost ks_i = keys_after(gv.take(i as int), cur);
        let keep = match start_after {
            Option::None => true,
            Option::Some(c) => str_lt(c.as_str(), v[i].as_str()),
        };
        proof {
            assert(gv.take(i + 1) =~= gv.take(i as int).push(gv[i as int]));
            lemma_keys_after_push(gv.take(i as int), cur, gv[i as int]);
            assert(keep == cursor_lt(cur, gv[i as int]));
        }
        if keep && out.len() < eff {
            proof {
                // The page built so far is the whole key list so far.
                assert(views_of(out@).len() < eff);
                assert(views_of(out@) == ks_i);
            }
            let ghost pre = out@;
            out.push(v[i].clone());
            proof {
                lemma_views_push(pre, v@[i as int]);
                assert(out@ == pre.push(v@[i as int]));
                assert(views_of(out@) == ks_i.push(gv[i as int]));
                assert(views_of(out@) == page_of(gv.take(i + 1), cur, eff as int));
            }
        } else {
            proof {
                if keep {
                    // The page is already full; later keys fall off its end.
                    assert(out@.len() == eff);
                    assert(ks_i.len() >= eff);
                    assert(keys_after(gv.take(i + 1), cur) == ks_i.push(gv[i as int]));
                    assert(ks_i.push(gv[i as int]).take(eff as int) =~= if (eff as int)
                        < ks_i.len() {
                        ks_i.take(eff as int)
                    } else {
                        ks_i
                    });
                    assert(views_of(out@) == page_of(gv.take(i + 1), cur, eff as int));
                } else {
                    assert(views_of(out@) == page_of(gv.take(i + 1), cur, eff as int));
                }
            }
        }
        i = i + 1;
    }
    proof {
        assert(gv.take(v@.len() as int) =~= gv);
    }
    out
}

} // verus!
