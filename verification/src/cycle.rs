//! Cycle lookup: the word after a given word inside an ordered, cyclic word
//! group, and the first matching group of a scope's toggle list.
//!
//! Matching is case-sensitive: a group element must equal the search word
//! exactly for the cycle to advance.

use vstd::prelude::*;

verus! {

/// Index of the first element of `g` equal to `w`, if any.
pub open spec fn first_index(g: Seq<Seq<char>>, w: Seq<char>) -> Option<int>
    decreases g.len(),
{
    if g.len() == 0 {
        None
    } else if g[0] == w {
        Some(0int)
    } else {
        match first_index(g.drop_first(), w) {
            Some(i) => Some(i + 1),
            None => None,
        }
    }
}

/// The word after `w` in the cyclic group `g`: the element following the
/// first occurrence of `w`, wrapping from the last position back to the
/// first. `None` when `w` stands nowhere in `g`.
pub open spec fn group_next(g: Seq<Seq<char>>, w: Seq<char>) -> Option<Seq<char>> {
    match first_index(g, w) {
        Some(i) => Some(g[(i + 1) % (g.len() as int)]),
        None => None,
    }
}

/// The toggle of `w` over a whole scope: groups are tried in their declared
/// order and the first group containing `w` decides; later groups are never
/// consulted.
pub open spec fn scope_next(toggles: Seq<Seq<Seq<char>>>, w: Seq<char>) -> Option<Seq<char>>
    decreases toggles.len(),
{
    if toggles.len() == 0 {
        None
    } else {
        match group_next(toggles[0], w) {
            Some(r) => Some(r),
            None => scope_next(toggles.drop_first(), w),
        }
    }
}

/// `first_index` finds a genuine first occurrence: the index it returns
/// holds `w`, everything before it does not, and a `None` means `w` stands
/// nowhere in `g`.
pub proof fn lemma_first_index_spec(g: Seq<Seq<char>>, w: Seq<char>)
    ensures
        match first_index(g, w) {
            Some(i) => 0 <= i < g.len() && g[i] == w && (forall|j: int|
                0 <= j < i ==> g[j] != w),
            None => forall|j: int| 0 <= j < g.len() ==> g[j] != w,
        },
    decreases g.len(),
{
    if g.len() > 0 && g[0] != w {
        lemma_first_index_spec(g.drop_first(), w);
        assert forall|j: int| 1 <= j < g.len() implies g.drop_first()[j - 1] == g[j] by {}
    }
}

/// The first occurrence index characterises `first_index` exactly.
pub proof fn lemma_first_index_of_hit(g: Seq<Seq<char>>, w: Seq<char>, i: int)
    requires
        0 <= i < g.len(),
        g[i] == w,
        forall|j: int| 0 <= j < i ==> g[j] != w,
    ensures
        first_index(g, w) == Some(i),
    decreases i,
{
    if i > 0 {
        assert(g[0] != w);
        assert(g.drop_first()[i - 1] == g[i]);
        assert forall|j: int| 0 <= j < i - 1 implies g.drop_first()[j] != w by {
            assert(g.drop_first()[j] == g[j + 1]);
        }
        lemma_first_index_of_hit(g.drop_first(), w, i - 1);
    }
}

/// Totality of the cycle lookup: a word standing in a group at its first
/// occurrence index `i` toggles to the element at `(i + 1) % len`.
pub proof fn lemma_cycle_lookup_total(g: Seq<Seq<char>>, w: Seq<char>, i: int)
    requires
        0 <= i < g.len(),
        g[i] == w,
        forall|j: int| 0 <= j < i ==> g[j] != w,
    ensures
        group_next(g, w) == Some(g[(i + 1) % (g.len() as int)]),
{
    lemma_first_index_of_hit(g, w, i);
}

/// A singleton group toggles its only word to itself: it is found, not
/// missed, and its successor in the one-element ring is itself.
pub proof fn lemma_singleton_self_cycle(x: Seq<char>)
    ensures
        group_next(seq![x], x) == Some(x),
{
    assert(first_index(seq![x], x) == Some(0int));
    assert((0int + 1) % (seq![x].len() as int) == 0int);
}

/// `w` after `k` applications of the group cycle; `None` as soon as one
/// step misses.
pub open spec fn iterate_next(g: Seq<Seq<char>>, w: Seq<char>, k: nat) -> Option<Seq<char>>
    decreases k,
{
    if k == 0 {
        Some(w)
    } else {
        match group_next(g, w) {
            Some(v) => iterate_next(g, v, (k - 1) as nat),
            None => None,
        }
    }
}

/// In a duplicate-free group, `k` cycle steps from position `i` land on
/// position `(i + k) % len`.
pub proof fn lemma_iterate_shifts(g: Seq<Seq<char>>, i: int, k: nat)
    requires
        g.no_duplicates(),
        0 <= i < g.len(),
    ensures
        iterate_next(g, g[i], k) == Some(g[(i + k) % (g.len() as int)]),
    decreases k,
{
    let n = g.len() as int;
    if k == 0 {
        vstd::arithmetic::div_mod::lemma_small_mod(i as nat, g.len());
    } else {
        assert forall|j: int| 0 <= j < i implies g[j] != g[i] by {}
        lemma_cycle_lookup_total(g, g[i], i);
        let i2 = (i + 1) % n;
        vstd::arithmetic::div_mod::lemma_mod_bound(i + 1, n);
        lemma_iterate_shifts(g, i2, (k - 1) as nat);
        assert((i2 + (k - 1)) % n == ((i + 1) + (k - 1)) % n) by {
            vstd::arithmetic::div_mod::lemma_add_mod_noop_right((k - 1) as int, i + 1, n);
        }
        assert((i + 1) + (k - 1) == i + k);
    }
}

/// Round trip after a full cycle: starting from any word of a
/// duplicate-free group, applying the cycle `len` times returns the word
/// itself.
pub proof fn lemma_round_trip(g: Seq<Seq<char>>, i: int)
    requires
        g.no_duplicates(),
        0 <= i < g.len(),
    ensures
        iterate_next(g, g[i], g.len()) == Some(g[i]),
{
    let n = g.len() as int;
    lemma_iterate_shifts(g, i, g.len());
    assert((i + n) % n == i) by {
        vstd::arithmetic::div_mod::lemma_mod_add_multiples_vanish(i, n);
        vstd::arithmetic::div_mod::lemma_small_mod(i as nat, g.len());
    }
}

/// The next word in the cyclic group `word_array` after `search_word`: the
/// element following the first exact match, wrapping from the last position
/// back to the first, or `None` when no element matches.
pub fn get_next_word<'a>(word_array: &'a Vec<String>, search_word: &String) -> (r: Option<
    &'a String,
>)
    ensures
        r.deep_view() == group_next(word_array.deep_view(), search_word@),
{
    let ghost g = word_array.deep_view();
    let n = word_array.len();
    let mut i: usize = 0;
    while i < n
        invariant
            i <= n,
            n == word_array.len(),
            g == word_array.deep_view(),
            forall|j: int| 0 <= j < i ==> g[j] != search_word@,
        decreases n - i,
    {
        if word_array[i] == *search_word {
            proof {
                lemma_first_index_of_hit(g, search_word@, i as int);
            }
            let k = if i + 1 < n {
                i + 1
            } else {
                0
            };
            proof {
                if i + 1 < n {
                    vstd::arithmetic::div_mod::lemma_small_mod((i + 1) as nat, n as nat);
                } else {
                    vstd::arithmetic::div_mod::lemma_mod_self_0(n as int);
                }
            }
            return Some(&word_array[k]);
        }
        i = i + 1;
    }
    proof {
        lemma_first_index_spec(g, search_word@);
    }
    None
}

/// The toggle of `search_word` over a scope's toggle list: the first group
/// containing it decides, later groups are never consulted.
pub fn next_in_scope<'a>(toggles: &'a Vec<Vec<String>>, search_word: &String) -> (r: Option<
    &'a String,
>)
    ensures
        r.deep_view() == scope_next(toggles.deep_view(), search_word@),
{
    let ghost t = toggles.deep_view();
    proof {
        assert(t.skip(0) =~= t);
    }
    let n = toggles.len();
    let mut i: usize = 0;
    while i < n
        invariant
            i <= n,
            n == toggles.len(),
            t == toggles.deep_view(),
            scope_next(t.skip(i as int), search_word@) == scope_next(t, search_word@),
        decreases n - i,
    {
        let r = get_next_word(&toggles[i], search_word);
        proof {
            assert(t.skip(i as int)[0] == t[i as int]);
            assert(t.skip(i as int).drop_first() =~= t.skip(i as int + 1));
        }
        match r {
            Some(w) => {
                return Some(w);
            },
            None => {},
        }
        i = i + 1;
    }
    proof {
        assert(t.skip(n as int) =~= Seq::<Seq<Seq<char>>>::empty());
    }
    None
}

} // verus!
