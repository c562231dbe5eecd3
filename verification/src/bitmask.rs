//! Sets of cities as bit masks: bit `i` of a mask says whether city `i`
//! belongs to the set. City 0, where every tour starts, is never a member.

use vstd::prelude::*;

verus! {

/// The largest number of cities a mask is used for.
pub const MASK_CITIES: usize = 20;

/// City `city` belongs to the set `mask`.
pub open spec fn has_city(mask: usize, city: usize) -> bool {
    mask & (1usize << city) != 0
}

/// `mask` is a set of cities from `[1, n)`.
pub open spec fn valid_mask(mask: usize, n: usize) -> bool {
    &&& mask < (1usize << n)
    &&& mask & 1 == 0
}

/// The number of cities below `k` that belong to `mask`.
pub open spec fn card(mask: usize, k: nat) -> nat
    decreases k,
{
    if k == 0 {
        0
    } else {
        card(mask, (k - 1) as nat) + if has_city(mask, (k - 1) as usize) { 1nat } else { 0nat }
    }
}

/// `mask` is a set of exactly `size` cities from `[1, n)`.
pub open spec fn is_subset_of_size(mask: usize, n: usize, size: usize) -> bool {
    valid_mask(mask, n) && card(mask, n as nat) == size
}

/// The two sets have the same members below `k`.
pub open spec fn agree_below(a: usize, b: usize, k: usize) -> bool {
    forall|j: usize| j < k ==> has_city(a, j) == has_city(b, j)
}

/// Membership after adding or removing one city.
pub proof fn lemma_toggle(mask: usize, city: usize, other: usize)
    by (bit_vector)
    requires
        city < 20,
        other < 20,
    ensures
        ((mask | (1usize << city)) & (1usize << other) != 0) == ((mask & (1usize << other) != 0)
            || other == city),
        ((mask ^ (1usize << city)) & (1usize << other) != 0) == ((mask & (1usize << other) != 0)
            != (other == city)),
        ((1usize << city) & (1usize << other) != 0) == (other == city),
{
}

/// Adding or removing a city of `[1, n)` keeps a mask within `[1, n)`.
pub proof fn lemma_toggle_valid(mask: usize, city: usize, n: usize)
    by (bit_vector)
    requires
        1 <= city < n <= 20,
        mask < (1usize << n),
        mask & 1 == 0,
    ensures
        (mask | (1usize << city)) < (1usize << n),
        (mask | (1usize << city)) & 1 == 0,
        (mask ^ (1usize << city)) < (1usize << n),
        (mask ^ (1usize << city)) & 1 == 0,
        (1usize << city) < (1usize << n),
        (1usize << city) & 1 == 0,
        (1usize << n) <= 0x10_0000,
        (1usize << n) >= 1,
{
}

/// A mask within `[1, n)` has no member from `n` on, nor city 0.
pub proof fn lemma_valid_mask_members(mask: usize, n: usize, city: usize)
    by (bit_vector)
    requires
        n <= 20,
        mask < (1usize << n),
        mask & 1 == 0,
        city < 20,
        mask & (1usize << city) != 0,
    ensures
        1 <= city < n,
{
}

/// The size of a mask is bounded by 2^20.
pub proof fn lemma_valid_mask_bound(mask: usize, n: usize)
    by (bit_vector)
    requires
        n <= 20,
        mask < (1usize << n),
    ensures
        mask < 0x10_0000,
        mask / 2 < (1usize << n) / 2 || n == 0,
        (1usize << n) <= 0x10_0000,
        n >= 1 ==> (1usize << n) / 2 == (1usize << ((n - 1) as usize)),
{
}

/// The empty set is a set of cities of `[1, n)` and has no member.
pub proof fn lemma_empty_mask(n: usize, city: usize)
    by (bit_vector)
    requires
        n <= 20,
    ensures
        0usize < (1usize << n),
        0usize & 1 == 0,
        0usize & (1usize << city) == 0,
        1usize << 0usize == 1,
{
}

/// The set of all cities of `[1, n)`.
pub proof fn lemma_full_mask(n: usize, city: usize)
    by (bit_vector)
    requires
        1 <= n <= 20,
        city < 20,
    ensures
        (((1usize << n) - 1) as usize ^ 1) < (1usize << n),
        (((1usize << n) - 1) as usize ^ 1) & 1 == 0,
        ((((1usize << n) - 1) as usize ^ 1) & (1usize << city) != 0) == (1 <= city < n),
        (1usize << n) >= 1,
{
}

/// Two masks below 2^20 with the same members are equal.
pub proof fn lemma_masks_equal(a: usize, b: usize)
    requires
        a < 0x10_0000,
        b < 0x10_0000,
        agree_below(a, b, 20),
    ensures
        a == b,
{
    assert(has_city(a, 0) == has_city(b, 0));
    assert(has_city(a, 1) == has_city(b, 1));
    assert(has_city(a, 2) == has_city(b, 2));
    assert(has_city(a, 3) == has_city(b, 3));
    assert(has_city(a, 4) == has_city(b, 4));
    assert(has_city(a, 5) == has_city(b, 5));
    assert(has_city(a, 6) == has_city(b, 6));
    assert(has_city(a, 7) == has_city(b, 7));
    assert(has_city(a, 8) == has_city(b, 8));
    assert(has_city(a, 9) == has_city(b, 9));
    assert(has_city(a, 10) == has_city(b, 10));
    assert(has_city(a, 11) == has_city(b, 11));
    assert(has_city(a, 12) == has_city(b, 12));
    assert(has_city(a, 13) == has_city(b, 13));
    assert(has_city(a, 14) == has_city(b, 14));
    assert(has_city(a, 15) == has_city(b, 15));
    assert(has_city(a, 16) == has_city(b, 16));
    assert(has_city(a, 17) == has_city(b, 17));
    assert(has_city(a, 18) == has_city(b, 18));
    assert(has_city(a, 19) == has_city(b, 19));
    assert(a == b) by (bit_vector)
        requires
            a < 0x10_0000,
            b < 0x10_0000,
            (a & (1usize << 0) != 0) == (b & (1usize << 0) != 0),
            (a & (1usize << 1) != 0) == (b & (1usize << 1) != 0),
            (a & (1usize << 2) != 0) == (b & (1usize << 2) != 0),
            (a & (1usize << 3) != 0) == (b & (1usize << 3) != 0),
            (a & (1usize << 4) != 0) == (b & (1usize << 4) != 0),
            (a & (1usize << 5) != 0) == (b & (1usize << 5) != 0),
            (a & (1usize << 6) != 0) == (b & (1usize << 6) != 0),
            (a & (1usize << 7) != 0) == (b & (1usize << 7) != 0),
            (a & (1usize << 8) != 0) == (b & (1usize << 8) != 0),
            (a & (1usize << 9) != 0) == (b & (1usize << 9) != 0),
            (a & (1usize << 10) != 0) == (b & (1usize << 10) != 0),
            (a & (1usize << 11) != 0) == (b & (1usize << 11) != 0),
            (a & (1usize << 12) != 0) == (b & (1usize << 12) != 0),
            (a & (1usize << 13) != 0) == (b & (1usize << 13) != 0),
            (a & (1usize << 14) != 0) == (b & (1usize << 14) != 0),
            (a & (1usize << 15) != 0) == (b & (1usize << 15) != 0),
            (a & (1usize << 16) != 0) == (b & (1usize << 16) != 0),
            (a & (1usize << 17) != 0) == (b & (1usize << 17) != 0),
            (a & (1usize << 18) != 0) == (b & (1usize << 18) != 0),
            (a & (1usize << 19) != 0) == (b & (1usize << 19) != 0),
    ;
}

/// A member of a mask below 2^20 that is not empty.
pub proof fn lemma_some_member(m: usize) -> (city: usize)
    requires
        0 < m < 0x10_0000,
    ensures
        city < 20,
        has_city(m, city),
{
    assert(m & (1usize << 0) != 0 || m & (1usize << 1) != 0 || m & (1usize << 2) != 0 || m & (1usize << 3) != 0 || m & (1usize << 4) != 0 || m & (1usize << 5) != 0 || m & (1usize << 6) != 0 || m & (1usize << 7) != 0 || m & (1usize << 8) != 0 || m & (1usize << 9) != 0 || m & (1usize << 10) != 0 || m & (1usize << 11) != 0 || m & (1usize << 12) != 0 || m & (1usize << 13) != 0 || m & (1usize << 14) != 0 || m & (1usize << 15) != 0 || m & (1usize << 16) != 0 || m & (1usize << 17) != 0 || m & (1usize << 18) != 0 || m & (1usize << 19) != 0) by (bit_vector)
        requires
            0 < m < 0x10_0000,
    ;
    if has_city(m, 0) {
        0
    } else if has_city(m, 1) {
        1
    } else if has_city(m, 2) {
        2
    } else if has_city(m, 3) {
        3
    } else if has_city(m, 4) {
        4
    } else if has_city(m, 5) {
        5
    } else if has_city(m, 6) {
        6
    } else if has_city(m, 7) {
        7
    } else if has_city(m, 8) {
        8
    } else if has_city(m, 9) {
        9
    } else if has_city(m, 10) {
        10
    } else if has_city(m, 11) {
        11
    } else if has_city(m, 12) {
        12
    } else if has_city(m, 13) {
        13
    } else if has_city(m, 14) {
        14
    } else if has_city(m, 15) {
        15
    } else if has_city(m, 16) {
        16
    } else if has_city(m, 17) {
        17
    } else if has_city(m, 18) {
        18
    } else {
        19
    }
}

/// Masks that agree below `k` have the same number of members below `k`.
pub proof fn lemma_card_agree(a: usize, b: usize, k: usize)
    requires
        agree_below(a, b, k),
    ensures
        card(a, k as nat) == card(b, k as nat),
    decreases k,
{
    if k > 0 {
        assert(agree_below(a, b, (k - 1) as usize));
        lemma_card_agree(a, b, (k - 1) as usize);
        assert(has_city(a, (k - 1) as usize) == has_city(b, (k - 1) as usize));
    }
}

/// The count of members grows with the bound, by at most one per city.
pub proof fn lemma_card_monotone(mask: usize, k: usize, n: usize)
    requires
        k <= n,
    ensures
        card(mask, k as nat) <= card(mask, n as nat) <= card(mask, k as nat) + (n - k),
    decreases n - k,
{
    if k < n {
        lemma_card_monotone(mask, k, (n - 1) as usize);
    }
}

/// If the count of members does not grow from `k` to `n`, no city of
/// `[k, n)` is a member.
pub proof fn lemma_card_no_more(mask: usize, k: usize, n: usize, city: usize)
    requires
        k <= city < n,
        card(mask, k as nat) == card(mask, n as nat),
    ensures
        !has_city(mask, city),
    decreases n - k,
{
    lemma_card_monotone(mask, k, (n - 1) as usize);
    if city < n - 1 {
        lemma_card_no_more(mask, k, (n - 1) as usize, city);
    }
}

/// A mask with no member from `k` on counts the same to `k` as to `n`.
pub proof fn lemma_card_stops(mask: usize, k: usize, n: usize)
    requires
        k <= n,
        forall|j: usize| k <= j < n ==> !has_city(mask, j),
    ensures
        card(mask, k as nat) == card(mask, n as nat),
    decreases n - k,
{
    if k < n {
        lemma_card_stops(mask, k, (n - 1) as usize);
        assert(!has_city(mask, (n - 1) as usize));
    }
}

/// Two masks that differ in the one city `city` differ by one in their count.
pub proof fn lemma_card_toggle(with: usize, without: usize, city: usize, n: usize)
    requires
        city < n,
        has_city(with, city),
        !has_city(without, city),
        forall|j: usize| j < n && j != city ==> has_city(with, j) == has_city(without, j),
    ensures
        card(with, n as nat) == card(without, n as nat) + 1,
    decreases n,
{
    if city == n - 1 {
        assert(agree_below(with, without, (n - 1) as usize));
        lemma_card_agree(with, without, (n - 1) as usize);
    } else {
        lemma_card_toggle(with, without, city, (n - 1) as usize);
        assert(has_city(with, (n - 1) as usize) == has_city(without, (n - 1) as usize));
    }
}

/// The set of all cities of `[1, n)`, as a mask.
pub open spec fn full_mask(n: usize) -> usize {
    (((1usize << n) - 1) as usize) ^ 1
}

/// A set without city 0 has at most `n - 1` members below `n`; the set of
/// all cities of `[1, n)` has exactly that many.
pub proof fn lemma_card_limit(mask: usize, n: usize)
    requires
        1 <= n <= 20,
        !has_city(mask, 0),
    ensures
        card(mask, n as nat) <= n - 1,
        (forall|c: usize| 1 <= c < n ==> has_city(mask, c)) ==> card(mask, n as nat) == n - 1,
    decreases n,
{
    if n == 1 {
        assert(card(mask, 0) == 0);
    } else {
        lemma_card_limit(mask, (n - 1) as usize);
    }
}

} // verus!
