//! Page and alignment arithmetic for placing resources.
//!
//! Linear and optimally tiled resources must not share a page of the device's
//! buffer-image granularity.  The functions here decide, from offsets and
//! sizes alone, whether two regions meet on a page and whether their kinds
//! are ones that must be kept apart.

use super::AllocationType;
use vstd::prelude::*;

verus! {

/// The position of an allocation type in the order in which the types are
/// declared.
pub open spec fn rank(t: AllocationType) -> int {
    match t {
        AllocationType::Free => 0,
        AllocationType::Buffer => 1,
        AllocationType::Image => 2,
        AllocationType::ImageLinear => 3,
        AllocationType::ImageOptimal => 4,
    }
}

/// The pairs, lower rank first, that must not share a page.
pub open spec fn conflicts_in_order(lo: AllocationType, hi: AllocationType) -> bool {
    match lo {
        AllocationType::Free => false,
        AllocationType::Buffer => hi == AllocationType::Image || hi
            == AllocationType::ImageOptimal,
        AllocationType::Image => hi == AllocationType::Image || hi == AllocationType::ImageLinear
            || hi == AllocationType::ImageOptimal,
        AllocationType::ImageLinear => hi == AllocationType::ImageOptimal,
        AllocationType::ImageOptimal => false,
    }
}

/// Whether resources of the two types must be kept on separate pages.  The
/// order of the arguments does not matter.
pub open spec fn granularity_conflict(a: AllocationType, b: AllocationType) -> bool {
    if rank(a) <= rank(b) {
        conflicts_in_order(a, b)
    } else {
        conflicts_in_order(b, a)
    }
}

/// The page, of `page_size` bytes each, that holds the byte at `address`.
/// Addresses below zero lie on pages below zero.
pub open spec fn page_of(address: int, page_size: int) -> int {
    address / page_size
}

/// Whether the last byte of the region `[a_offset, a_offset + a_size)` lies on
/// the page on which the byte at `b_offset` lies.
pub open spec fn same_page(a_offset: int, a_size: int, b_offset: int, page_size: int) -> bool {
    page_of(a_offset + a_size - 1, page_size) == page_of(b_offset, page_size)
}

/// The least multiple of `alignment` that is not below `number`.
pub open spec fn round_up(number: int, alignment: int) -> int {
    if number % alignment == 0 {
        number
    } else {
        number + (alignment - number % alignment)
    }
}

fn rank_of(t: AllocationType) -> (r: u8)
    ensures
        r == rank(t),
{
    match t {
        AllocationType::Free => 0,
        AllocationType::Buffer => 1,
        AllocationType::Image => 2,
        AllocationType::ImageLinear => 3,
        AllocationType::ImageOptimal => 4,
    }
}

/// Tells whether resources of the two allocation types must be kept on
/// separate pages.
pub fn has_granularity_conflict(type1: AllocationType, type2: AllocationType) -> (conflict: bool)
    ensures
        conflict == granularity_conflict(type1, type2),
{
    let mut type1 = type1;
    let mut type2 = type2;
    if rank_of(type1) > rank_of(type2) {
        let swapped = type1;
        type1 = type2;
        type2 = swapped;
    }
    match type1 {
        AllocationType::Free => false,
        AllocationType::Buffer => {
            type2 == AllocationType::Image || type2 == AllocationType::ImageOptimal
        },
        AllocationType::Image => {
            type2 == AllocationType::Image || type2 == AllocationType::ImageLinear || type2
                == AllocationType::ImageOptimal
        },
        AllocationType::ImageLinear => type2 == AllocationType::ImageOptimal,
        AllocationType::ImageOptimal => false,
    }
}

/// Whether two types must be kept apart does not depend on their order, and
/// free memory is kept apart from nothing.
pub proof fn lemma_conflict_symmetric(a: AllocationType, b: AllocationType)
    ensures
        granularity_conflict(a, b) == granularity_conflict(b, a),
        !granularity_conflict(AllocationType::Free, a),
        !granularity_conflict(a, AllocationType::Free),
{
}

/// Tells whether the last byte of the region of `r_a_size` bytes at
/// `r_a_offset` lies on the page that holds the byte at `r_b_offset`.  An empty
/// region at offset zero ends before the first page and meets nothing.
pub fn is_on_same_page(
    r_a_offset: u64,
    r_a_size: u64,
    r_b_offset: u64,
    page_size: u64,
) -> (same: bool)
    requires
        page_size > 0,
    ensures
        same == same_page(r_a_offset as int, r_a_size as int, r_b_offset as int, page_size as int),
{
    let end_plus_one: u128 = r_a_offset as u128 + r_a_size as u128;
    if end_plus_one == 0 {
        proof {
            lemma_page_of_sign(-1, page_size as int);
            lemma_page_of_sign(r_b_offset as int, page_size as int);
        }
        return false;
    }
    let r_a_end: u128 = end_plus_one - 1;
    let r_a_end_page: u128 = r_a_end / (page_size as u128);
    let r_b_start_page: u128 = (r_b_offset as u128) / (page_size as u128);
    r_a_end_page == r_b_start_page
}

/// Rounds `number` up to the next multiple of `alignment`.
pub fn aling(number: u64, alignment: u64) -> (aligned: u64)
    requires
        alignment > 0,
        round_up(number as int, alignment as int) <= u64::MAX,
    ensures
        aligned == round_up(number as int, alignment as int),
{
    let rest: u64 = number % alignment;
    if rest == 0 {
        number
    } else {
        number + (alignment - rest)
    }
}

/// Rounds `number` up to the next multiple of `alignment`, or tells that the
/// result is too large for 64 bits.
pub fn checked_aling(number: u64, alignment: u64) -> (aligned: Option<u64>)
    requires
        alignment > 0,
    ensures
        aligned == (if round_up(number as int, alignment as int) <= u64::MAX {
            Some(round_up(number as int, alignment as int) as u64)
        } else {
            None
        }),
{
    let rest: u64 = number % alignment;
    if rest == 0 {
        Some(number)
    } else if alignment - rest <= u64::MAX - number {
        Some(number + (alignment - rest))
    } else {
        None
    }
}

/// Addresses from zero on lie on pages from zero on, addresses below zero on
/// pages below zero.
pub proof fn lemma_page_of_sign(address: int, page_size: int)
    requires
        page_size > 0,
    ensures
        address >= 0 ==> page_of(address, page_size) >= 0,
        address < 0 ==> page_of(address, page_size) < 0,
{
    vstd::arithmetic::div_mod::lemma_fundamental_div_mod(address, page_size);
    vstd::arithmetic::div_mod::lemma_mod_bound(address, page_size);
    let q = address / page_size;
    if address >= 0 && q < 0 {
        assert(page_size * q <= page_size * (-1)) by (nonlinear_arith)
            requires
                q <= -1,
                page_size > 0,
        ;
    }
    if address < 0 && q >= 0 {
        assert(page_size * q >= 0) by (nonlinear_arith)
            requires
                q >= 0,
                page_size > 0,
        ;
    }
}

/// A higher address never lies on a lower page.
pub proof fn lemma_page_of_monotonic(low: int, high: int, page_size: int)
    requires
        page_size > 0,
        low <= high,
    ensures
        page_of(low, page_size) <= page_of(high, page_size),
{
    vstd::arithmetic::div_mod::lemma_div_is_ordered(low, high, page_size);
}

/// Rounding up gives a multiple of the alignment, less than one alignment
/// above the number.
pub proof fn lemma_round_up(number: int, alignment: int)
    requires
        alignment > 0,
    ensures
        round_up(number, alignment) % alignment == 0,
        number <= round_up(number, alignment) < number + alignment,
{
    let r = round_up(number, alignment);
    vstd::arithmetic::div_mod::lemma_fundamental_div_mod(number, alignment);
    vstd::arithmetic::div_mod::lemma_mod_bound(number, alignment);
    let q = number / alignment;
    if number % alignment != 0 {
        assert(r == alignment * (q + 1)) by (nonlinear_arith)
            requires
                r == number + (alignment - number % alignment),
                number == alignment * q + number % alignment,
        ;
        vstd::arithmetic::div_mod::lemma_mod_multiples_basic(q + 1, alignment);
        assert(alignment * (q + 1) == (q + 1) * alignment) by (nonlinear_arith);
    }
}

/// No multiple of the alignment lies between the number and what it is
/// rounded up to.
pub proof fn lemma_round_up_least(number: int, alignment: int, multiple: int)
    requires
        alignment > 0,
        multiple % alignment == 0,
        number <= multiple,
    ensures
        round_up(number, alignment) <= multiple,
{
    let r = round_up(number, alignment);
    lemma_round_up(number, alignment);
    if multiple < r {
        vstd::arithmetic::div_mod::lemma_fundamental_div_mod(multiple, alignment);
        vstd::arithmetic::div_mod::lemma_fundamental_div_mod(r, alignment);
        let a = multiple / alignment;
        let b = r / alignment;
        assert(a < b) by (nonlinear_arith)
            requires
                alignment * a < alignment * b,
                alignment > 0,
        ;
        assert(alignment * b - alignment * a >= alignment) by (nonlinear_arith)
            requires
                a + 1 <= b,
                alignment > 0,
        ;
    }
}

/// A multiple of a multiple of `small` is a multiple of `small`.
pub proof fn lemma_multiple_of_multiple(number: int, small: int, large: int)
    requires
        small > 0,
        large > 0,
        large % small == 0,
        number % large == 0,
    ensures
        number % small == 0,
{
    let factor = large / small;
    vstd::arithmetic::div_mod::lemma_fundamental_div_mod(large, small);
    assert(factor > 0) by (nonlinear_arith)
        requires
            large == small * factor,
            large > 0,
            small > 0,
    ;
    vstd::arithmetic::div_mod::lemma_mod_mod(number, small, factor);
    vstd::arithmetic::div_mod::lemma_small_mod(0, small as nat);
}

/// An address below a page boundary lies on a lower page than the boundary.
pub proof fn lemma_page_below_boundary(address: int, boundary: int, page_size: int)
    requires
        page_size > 0,
        boundary % page_size == 0,
        address < boundary,
    ensures
        page_of(address, page_size) < page_of(boundary, page_size),
{
    let q = boundary / page_size;
    vstd::arithmetic::div_mod::lemma_fundamental_div_mod(boundary, page_size);
    assert(boundary - 1 == (q - 1) * page_size + (page_size - 1)) by (nonlinear_arith)
        requires
            boundary == page_size * q,
    ;
    vstd::arithmetic::div_mod::lemma_fundamental_div_mod_converse(
        boundary - 1,
        page_size,
        q - 1,
        page_size - 1,
    );
    lemma_page_of_monotonic(address, boundary - 1, page_size);
}

/// An address one page size or more above another lies on a higher page.
pub proof fn lemma_page_above(low: int, high: int, page_size: int)
    requires
        page_size > 0,
        low + page_size <= high,
    ensures
        page_of(low, page_size) < page_of(high, page_size),
{
    vstd::arithmetic::div_mod::lemma_fundamental_div_mod(low, page_size);
    vstd::arithmetic::div_mod::lemma_mod_bound(low, page_size);
    assert(low + page_size == (low / page_size + 1) * page_size + low % page_size)
        by (nonlinear_arith)
        requires
            low == page_size * (low / page_size) + low % page_size,
    ;
    vstd::arithmetic::div_mod::lemma_fundamental_div_mod_converse(
        low + page_size,
        page_size,
        low / page_size + 1,
        low % page_size,
    );
    lemma_page_of_monotonic(low + page_size, high, page_size);
}

} // verus!
