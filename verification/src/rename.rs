//! Sequential renaming of the pages of a volume: natural ordering, numeric
//! hints taken from the file names, and the `0001.jpg` style names.
use vstd::prelude::*;
use std::collections::HashSet;
use vstd::seq_lib::seq_to_set_is_finite;
use vstd::set_lib::{lemma_int_range, lemma_len_subset, set_int_range};
use crate::names::{is_supported_name, is_supported_image};
use crate::text::{
    all_digits, chars_of, decimal, digits_value, is_ascii_digit, is_digit, lower_chars, lower_seq,
    parse_digit_run, push_chars, push_decimal, push_str, push_zero_padded, string_of, zero_padded,
};

verus! {

broadcast use vstd::std_specs::hash::group_hash_axioms;

// ---------------------------------------------------------------------------
// Natural ordering
// ---------------------------------------------------------------------------

/// The natural ordering of `natord::compare` (digit runs compared by value,
/// Unicode whitespace skipped), written -1, 0 or 1 for less, equal, greater.
pub uninterp spec fn natural_order(left: Seq<char>, right: Seq<char>) -> i8;

/// `natord::compare(left, right)`. The contract names its result and states
/// that swapping the arguments reverses it, as the symmetric comparison loop
/// of `natord::compare_iter` shows; nothing else about the order is claimed.
#[verifier::external_body]
fn natural_compare(left: &str, right: &str) -> (r: i8)
    ensures
        r == natural_order(left@, right@),
        r == -1 || r == 0 || r == 1,
        natural_order(right@, left@) == -r,
{
    match natord::compare(left, right) {
        std::cmp::Ordering::Less => -1,
        std::cmp::Ordering::Equal => 0,
        std::cmp::Ordering::Greater => 1,
    }
}

/// Entry `a` may stand right before entry `b` in a stable natural sort.
pub open spec fn stays_before(names: Seq<String>, a: usize, b: usize) -> bool {
    let c = natural_order(names[a as int]@, names[b as int]@);
    c != 1 && (c == 0 ==> a < b)
}

/// `order` lists every index of `names` exactly once.
pub open spec fn is_index_permutation(order: Seq<usize>, n: nat) -> bool {
    &&& order.len() == n
    &&& forall|k: int| 0 <= k < order.len() ==> #[trigger] order[k] < n
    &&& forall|k: int, l: int| 0 <= k < l < order.len() ==> order[k] != order[l]
}

/// `order` is a stable natural sort of `names`: a permutation of its indices
/// in which every neighbour pair is in natural order, equal names keeping their
/// input order.
pub open spec fn is_natural_sort(names: Seq<String>, order: Seq<usize>) -> bool {
    &&& is_index_permutation(order, names.len())
    &&& forall|k: int|
        0 <= k < order.len() - 1 ==> #[trigger] stays_before(names, order[k], order[k + 1])
}

/// The indices of `names` in stable natural order (the order of
/// `sort_by(natord::compare)`).
pub fn natural_sort_indices(names: &Vec<String>) -> (order: Vec<usize>)
    ensures
        is_natural_sort(names@, order@),
{
    let mut order: Vec<usize> = Vec::new();
    let n = names.len();
    let mut i: usize = 0;
    while i < n
        invariant
            n == names@.len(),
            i <= n,
            is_index_permutation(order@, i as nat),
            forall|k: int|
                0 <= k < order@.len() - 1 ==> #[trigger] stays_before(
                    names@,
                    order@[k],
                    order@[k + 1],
                ),
        decreases n - i,
    {
        let mut pos = order.len();
        let mut settled = false;
        while !settled && pos > 0
            invariant
                n == names@.len(),
                i < n,
                pos <= order@.len(),
                is_index_permutation(order@, i as nat),
                forall|k: int|
                    0 <= k < order@.len() - 1 ==> #[trigger] stays_before(
                        names@,
                        order@[k],
                        order@[k + 1],
                    ),
                settled ==> pos > 0 && natural_order(
                    names@[order@[pos - 1] as int]@,
                    names@[i as int]@,
                ) != 1,
                pos < order@.len() ==> natural_order(
                    names@[order@[pos as int] as int]@,
                    names@[i as int]@,
                ) == 1,
                pos < order@.len() ==> natural_order(
                    names@[i as int]@,
                    names@[order@[pos as int] as int]@,
                ) == -1,
            decreases pos + (if settled { 0int } else { 1int }),
        {
            let j = order[pos - 1];
            let c = natural_compare(names[j].as_str(), names[i].as_str());
            if c != 1 {
                settled = true;
            } else {
                pos = pos - 1;
            }
        }
        let ghost old_order = order@;
        proof {
            if pos > 0 {
                assert(old_order[pos - 1] < i);
            }
        }
        order.insert(pos, i);
        proof {
            let s = order@;
            assert(s == old_order.insert(pos as int, i));
            assert forall|k: int| 0 <= k < s.len() implies #[trigger] s[k] < i + 1 by {
                if k < pos {
                    assert(s[k] == old_order[k]);
                } else if k > pos {
                    assert(s[k] == old_order[k - 1]);
                }
            }
            assert forall|k: int, l: int| 0 <= k < l < s.len() implies s[k] != s[l] by {
                if k < pos && l < pos {
                } else if k < pos && l == pos {
                } else if k < pos && l > pos {
                    assert(s[l] == old_order[l - 1]);
                } else if k == pos {
                    assert(s[l] == old_order[l - 1]);
                } else {
                    assert(s[k] == old_order[k - 1]);
                    assert(s[l] == old_order[l - 1]);
                }
            }
            assert forall|k: int| 0 <= k < s.len() - 1 implies #[trigger] stays_before(
                names@,
                s[k],
                s[k + 1],
            ) by {
                if k + 1 < pos {
                    assert(s[k] == old_order[k] && s[k + 1] == old_order[k + 1]);
                } else if k + 1 == pos {
                    assert(s[k] == old_order[k] && s[k + 1] == i);
                } else if k == pos {
                    assert(s[k] == i && s[k + 1] == old_order[k]);
                } else {
                    assert(s[k] == old_order[k - 1] && s[k + 1] == old_order[k]);
                    let kk = k - 1;
                    assert(stays_before(names@, old_order[kk], old_order[kk + 1]));
                    assert(old_order[kk + 1] == old_order[k]);
                }
            }
        }
        i = i + 1;
    }
    order
}

// ---------------------------------------------------------------------------
// Numbers inside file names
// ---------------------------------------------------------------------------

/// `s` without its trailing non-digit characters.
pub open spec fn strip_nondigit_suffix(s: Seq<char>) -> Seq<char>
    decreases s.len(),
{
    if s.len() > 0 && !is_digit(s.last()) {
        strip_nondigit_suffix(s.drop_last())
    } else {
        s
    }
}

/// Length of the run of digits that ends `s`.
pub open spec fn digit_suffix_len(s: Seq<char>) -> nat
    decreases s.len(),
{
    if s.len() > 0 && is_digit(s.last()) {
        1 + digit_suffix_len(s.drop_last())
    } else {
        0
    }
}

/// The last maximal run of digits in `s` (empty when `s` has no digit).
pub open spec fn last_digit_run(s: Seq<char>) -> Seq<char> {
    let t = strip_nondigit_suffix(s);
    t.subrange(t.len() - digit_suffix_len(t), t.len() as int)
}

/// The number that ends a file name: the last run of digits, when it fits a
/// `u64`.
pub open spec fn numeric_suffix(s: Seq<char>) -> Option<u64> {
    let r = last_digit_run(s);
    if r.len() > 0 && digits_value(r) <= u64::MAX {
        Some(digits_value(r) as u64)
    } else {
        None
    }
}

pub proof fn lemma_digit_suffix_len_bound(s: Seq<char>)
    ensures
        digit_suffix_len(s) <= s.len(),
        all_digits(s.subrange(s.len() - digit_suffix_len(s), s.len() as int)),
        digit_suffix_len(s) < s.len() ==> !is_digit(s[s.len() - digit_suffix_len(s) - 1]),
    decreases s.len(),
{
    if s.len() > 0 && is_digit(s.last()) {
        lemma_digit_suffix_len_bound(s.drop_last());
        let d = digit_suffix_len(s.drop_last());
        assert forall|i: int|
            0 <= i < s.subrange(s.len() - digit_suffix_len(s), s.len() as int).len() implies is_digit(
            #[trigger] s.subrange(s.len() - digit_suffix_len(s), s.len() as int)[i],
        ) by {
            let k = s.len() - digit_suffix_len(s) + i;
            if k < s.len() - 1 {
                assert(s.drop_last().subrange(s.drop_last().len() - d, s.drop_last().len() as int)[i]
                    == s[k]);
            }
        }
        if digit_suffix_len(s) < s.len() {
            assert(s[s.len() - digit_suffix_len(s) - 1] == s.drop_last()[s.drop_last().len() - d
                - 1]);
        }
    }
}

/// Characters `s[j..]` are not digits, so removing them keeps the numbers.
proof fn lemma_strip_nondigits(s: Seq<char>, j: int)
    requires
        0 <= j <= s.len(),
        forall|k: int| j <= k < s.len() ==> !is_digit(#[trigger] s[k]),
    ensures
        strip_nondigit_suffix(s) == strip_nondigit_suffix(s.subrange(0, j)),
    decreases s.len() - j,
{
    if j < s.len() {
        assert(s.drop_last().subrange(0, j) =~= s.subrange(0, j));
        lemma_strip_nondigits(s.drop_last(), j);
    } else {
        assert(s.subrange(0, j) =~= s);
    }
}

/// When `s[k..]` is all digits and `s[k-1]` is not, the digit run ending `s`
/// is exactly `s[k..]`.
proof fn lemma_digit_suffix_exact(s: Seq<char>, k: int)
    requires
        0 <= k <= s.len(),
        forall|m: int| k <= m < s.len() ==> is_digit(#[trigger] s[m]),
        k > 0 ==> !is_digit(s[k - 1]),
    ensures
        digit_suffix_len(s) == s.len() - k,
    decreases s.len() - k,
{
    if k < s.len() {
        lemma_digit_suffix_exact(s.drop_last(), k);
    }
}

/// Locates the last digit run of `v[..end]`: returns `(start, stop)` with
/// `v[start..stop]` that run.
fn locate_last_run(v: &Vec<char>, end: usize) -> (r: (usize, usize))
    requires
        end <= v@.len(),
    ensures
        r.0 <= r.1 <= end,
        strip_nondigit_suffix(v@.subrange(0, end as int)) == v@.subrange(0, r.1 as int),
        digit_suffix_len(v@.subrange(0, r.1 as int)) == r.1 - r.0,
        all_digits(v@.subrange(r.0 as int, r.1 as int)),
        forall|m: int| r.1 <= m < end ==> !is_digit(#[trigger] v@[m]),
        r.1 > 0 ==> is_digit(v@[r.1 - 1]),
        r.1 > 0 ==> r.0 < r.1,
{
    let mut j = end;
    while j > 0 && !is_ascii_digit(v[j - 1])
        invariant
            j <= end <= v@.len(),
            forall|k: int| j <= k < end ==> !is_digit(#[trigger] v@[k]),
        decreases j,
    {
        j = j - 1;
    }
    proof {
        let p = v@.subrange(0, end as int);
        assert forall|k: int| j <= k < p.len() implies !is_digit(#[trigger] p[k]) by {
            assert(p[k] == v@[k]);
        }
        lemma_strip_nondigits(p, j as int);
        assert(p.subrange(0, j as int) =~= v@.subrange(0, j as int));
        let q = v@.subrange(0, j as int);
        if j > 0 {
            assert(q.last() == v@[j - 1]);
            assert(strip_nondigit_suffix(q) == q);
        } else {
            assert(strip_nondigit_suffix(q) == q);
        }
    }
    let mut k = j;
    while k > 0 && is_ascii_digit(v[k - 1])
        invariant
            k <= j <= v@.len(),
            forall|m: int| k <= m < j ==> is_digit(#[trigger] v@[m]),
        decreases k,
    {
        k = k - 1;
    }
    proof {
        let q = v@.subrange(0, j as int);
        assert forall|m: int| k <= m < q.len() implies is_digit(#[trigger] q[m]) by {
            assert(q[m] == v@[m]);
        }
        if k > 0 {
            assert(q[k - 1] == v@[k - 1]);
        }
        lemma_digit_suffix_exact(q, k as int);
        assert forall|m: int| 0 <= m < v@.subrange(k as int, j as int).len() implies is_digit(
            #[trigger] v@.subrange(k as int, j as int)[m],
        ) by {
            assert(v@.subrange(k as int, j as int)[m] == v@[k + m]);
        }
    }
    (k, j)
}

/// The number at the end of a file name (`"Dl-Raw.net-010.jpg"` gives 10):
/// the last run of digits, when it fits a `u64`.
pub fn extract_numeric_suffix(name: &str) -> (r: Option<u64>)
    ensures
        r == numeric_suffix(name@),
{
    let v = chars_of(name);
    let (k, j) = locate_last_run(&v, v.len());
    proof {
        assert(v@.subrange(0, v@.len() as int) =~= v@);
        let t = v@.subrange(0, j as int);
        assert(t.subrange(t.len() - digit_suffix_len(t), t.len() as int) =~= v@.subrange(
            k as int,
            j as int,
        ));
    }
    if k == j {
        None
    } else {
        parse_digit_run(&v, k, j, u64::MAX)
    }
}

/// The last run of digits of `s` whose value is at most `max`.
pub open spec fn last_run_at_most(s: Seq<char>, max: nat) -> Option<nat>
    decreases s.len(),
{
    if s.len() == 0 {
        None
    } else if !is_digit(s.last()) {
        last_run_at_most(s.drop_last(), max)
    } else {
        let k = digit_suffix_len(s);
        let run = s.subrange(s.len() - k, s.len() as int);
        if digits_value(run) <= max {
            Some(digits_value(run))
        } else {
            proof {
                lemma_digit_suffix_len_bound(s);
            }
            last_run_at_most(s.subrange(0, s.len() - k), max)
        }
    }
}

proof fn lemma_last_run_skip(s: Seq<char>, j: int, max: nat)
    requires
        0 <= j <= s.len(),
        forall|k: int| j <= k < s.len() ==> !is_digit(#[trigger] s[k]),
    ensures
        last_run_at_most(s, max) == last_run_at_most(s.subrange(0, j), max),
    decreases s.len() - j,
{
    if j < s.len() {
        assert(s.drop_last().subrange(0, j) =~= s.subrange(0, j));
        lemma_last_run_skip(s.drop_last(), j, max);
    } else {
        assert(s.subrange(0, j) =~= s);
    }
}

/// The volume number in a folder name (`"Vol_01"` gives 1): the last run of
/// digits that fits a `u32`; earlier runs count only when later ones overflow.
pub fn detect_volume_number(name: &str) -> (r: Option<u32>)
    ensures
        r == (match last_run_at_most(name@, u32::MAX as nat) {
            Some(v) => Some(v as u32),
            None => None::<u32>,
        }),
{
    let v = chars_of(name);
    let mut end = v.len();
    proof {
        assert(v@.subrange(0, end as int) =~= v@);
    }
    while end > 0
        invariant
            v@ == name@,
            end <= v@.len(),
            last_run_at_most(v@, u32::MAX as nat) == last_run_at_most(
                v@.subrange(0, end as int),
                u32::MAX as nat,
            ),
        decreases end,
    {
        let (k, j) = locate_last_run(&v, end);
        proof {
            let p = v@.subrange(0, end as int);
            assert forall|m: int| j <= m < p.len() implies !is_digit(#[trigger] p[m]) by {
                assert(p[m] == v@[m]);
            }
            lemma_last_run_skip(p, j as int, u32::MAX as nat);
            assert(p.subrange(0, j as int) =~= v@.subrange(0, j as int));
        }
        if j == 0 {
            assert(v@.subrange(0, 0).len() == 0);
            return None;
        }
        proof {
            let q = v@.subrange(0, j as int);
            assert(q.last() == v@[j - 1]);
            assert(q.subrange(q.len() - digit_suffix_len(q), q.len() as int) =~= v@.subrange(
                k as int,
                j as int,
            ));
            assert(q.subrange(0, q.len() - digit_suffix_len(q)) =~= v@.subrange(0, k as int));
        }
        match parse_digit_run(&v, k, j, u32::MAX as u64) {
            Some(value) => {
                return Some(value as u32);
            },
            None => {
                end = k;
            },
        }
    }
    proof {
        assert(v@.subrange(0, 0).len() == 0);
    }
    None
}


// ---------------------------------------------------------------------------
// Sequence numbers
// ---------------------------------------------------------------------------

/// A hint that can be taken: present, not zero, and not already handed out.
pub open spec fn hint_usable(hint: Option<u64>, earlier: Seq<u64>) -> bool {
    match hint {
        Some(h) => h != 0 && !earlier.contains(h),
        None => false,
    }
}

/// The lowest number that entry `i` may take when it cannot keep its hint: one
/// past the last number handed out that way before it, or 1.
pub open spec fn sequence_floor(hints: Seq<Option<u64>>, numbers: Seq<u64>, i: int) -> int
    decreases i,
{
    if i <= 0 {
        1
    } else if hint_usable(hints[i - 1], numbers.take(i - 1)) {
        sequence_floor(hints, numbers, i - 1)
    } else {
        numbers[i - 1] + 1
    }
}

/// Entry `i` got the number that the renaming rules give it: its hint when the
/// hint is usable, else the smallest free number from the floor on.
pub open spec fn number_fits(hints: Seq<Option<u64>>, numbers: Seq<u64>, i: int) -> bool {
    let earlier = numbers.take(i);
    if hint_usable(hints[i], earlier) {
        numbers[i] == hints[i]->0
    } else {
        let floor = sequence_floor(hints, numbers, i);
        &&& floor <= numbers[i]
        &&& !earlier.contains(numbers[i])
        &&& forall|m: int| floor <= m < numbers[i] ==> #[trigger] earlier.contains(m as u64)
    }
}

/// `numbers` is the numbering that the renaming gives to entries with these
/// hints, in order.
pub open spec fn is_sequence_plan(hints: Seq<Option<u64>>, numbers: Seq<u64>) -> bool {
    &&& numbers.len() == hints.len()
    &&& forall|i: int| 0 <= i < numbers.len() ==> #[trigger] number_fits(hints, numbers, i)
}

/// Every number from 1 to `m` occurs in `s`, so `s` has at least `m` entries.
proof fn lemma_range_needs_room(s: Seq<u64>, m: int)
    requires
        0 <= m <= u64::MAX,
        forall|x: int| 1 <= x <= m ==> #[trigger] s.contains(x as u64),
    ensures
        m <= s.len(),
{
    broadcast use seq_to_set_is_finite;

    let t = s.map_values(|x: u64| x as int);
    let r = set_int_range(1, m + 1);
    assert forall|x: int| r.contains(x) implies t.to_set().contains(x) by {
        assert(s.contains(x as u64));
        let k = choose|k: int| 0 <= k < s.len() && s[k] == x as u64;
        assert(t[k] == x);
        assert(t.contains(x));
    }
    lemma_int_range(1, m + 1);
    lemma_len_subset(r, t.to_set());
    t.lemma_cardinality_of_set();
}

proof fn lemma_floor_prefix(hints: Seq<Option<u64>>, numbers: Seq<u64>, x: u64, i: int)
    requires
        0 <= i <= numbers.len(),
    ensures
        sequence_floor(hints, numbers.push(x), i) == sequence_floor(hints, numbers, i),
    decreases i,
{
    if i > 0 {
        assert(numbers.push(x).take(i - 1) =~= numbers.take(i - 1));
        lemma_floor_prefix(hints, numbers, x, i - 1);
    }
}

/// The sequence numbers of the renamed pages, in page order: a page keeps the
/// number in its name when that number is free and not zero, the others take
/// the next free numbers counting up from 1. The numbers are distinct and
/// positive.
pub fn assign_sequence_numbers(hints: &Vec<Option<u64>>) -> (numbers: Vec<u64>)
    ensures
        is_sequence_plan(hints@, numbers@),
        forall|i: int, j: int| 0 <= i < j < numbers@.len() ==> numbers@[i] != numbers@[j],
        forall|i: int| 0 <= i < numbers@.len() ==> #[trigger] numbers@[i] >= 1,
{
    let mut used: HashSet<u64> = HashSet::new();
    let mut numbers: Vec<u64> = Vec::new();
    let mut next: u128 = 1;
    let n = hints.len();
    let mut i: usize = 0;
    while i < n
        invariant
            n == hints@.len(),
            i <= n,
            numbers@.len() == i,
            forall|m: u64| #[trigger] used@.contains(m) <==> numbers@.contains(m),
            forall|k: int| 0 <= k < i ==> #[trigger] number_fits(hints@, numbers@, k),
            forall|a: int, b: int| 0 <= a < b < numbers@.len() ==> numbers@[a] != numbers@[b],
            forall|a: int| 0 <= a < numbers@.len() ==> #[trigger] numbers@[a] >= 1,
            next as int == sequence_floor(hints@, numbers@, i as int),
            forall|m: int| 1 <= m < next ==> #[trigger] numbers@.contains(m as u64),
            1 <= next <= i + 1,
        decreases n - i,
    {
        let hint = hints[i];
        let usable = match hint {
            Some(h) => h != 0 && !used.contains(&h),
            None => false,
        };
        let ghost before = numbers@;
        assert(before.take(i as int) =~= before);
        let number: u64;
        if usable {
            number = hint.unwrap();
        } else {
            while used.contains(&(next as u64))
                invariant
                    numbers@ == before,
                    numbers@.len() == i,
                    i < n,
                    n == hints@.len(),
                    forall|m: u64| #[trigger] used@.contains(m) <==> numbers@.contains(m),
                    sequence_floor(hints@, numbers@, i as int) <= next <= i + 1,
                    forall|m: int| 1 <= m < next ==> #[trigger] numbers@.contains(m as u64),
                decreases i + 1 - next,
            {
                proof {
                    assert(numbers@.contains(next as u64));
                    assert forall|x: int| 1 <= x <= next as int implies #[trigger] numbers@.contains(
                        x as u64,
                    ) by {}
                    lemma_range_needs_room(numbers@, next as int);
                }
                next = next + 1;
            }
            number = next as u64;
            next = next + 1;
        }
        numbers.push(number);
        used.insert(number);
        proof {
            let s = numbers@;
            assert(s.take(i as int) =~= before);
            lemma_floor_prefix(hints@, before, number, i as int);
            assert forall|k: int| 0 <= k < i + 1 implies #[trigger] number_fits(hints@, s, k) by {
                if k < i {
                    assert(s.take(k) =~= before.take(k));
                    lemma_floor_prefix(hints@, before, number, k);
                    assert(number_fits(hints@, before, k));
                }
            }
            assert forall|a: int, b: int| 0 <= a < b < s.len() implies s[a] != s[b] by {
                if b == i {
                    assert(before.contains(s[a]));
                }
            }
            if !usable {
                assert(!before.contains(number));
            }
            assert forall|m: u64| #[trigger] s.contains(m) <==> (before.contains(m) || m == number) by {
                if before.contains(m) {
                    let k = choose|k: int| 0 <= k < before.len() && before[k] == m;
                    assert(s[k] == m);
                }
                if m == number {
                    assert(s[i as int] == m);
                }
                if s.contains(m) {
                    let k = choose|k: int| 0 <= k < s.len() && s[k] == m;
                    if k < i {
                        assert(before[k] == m);
                    }
                }
            }
            assert forall|m: int| 1 <= m < next implies #[trigger] s.contains(m as u64) by {
                if m as u64 != number {
                    assert(before.contains(m as u64));
                }
            }
        }
        i = i + 1;
    }
    numbers
}

// ---------------------------------------------------------------------------
// Names and warnings
// ---------------------------------------------------------------------------

/// One renamed page: its old and its new file name.
#[derive(Debug, PartialEq, Eq)]
pub struct RenameEntry {
    pub original_name: String,
    pub renamed_name: String,
}

/// The new name of the page numbered `number`: the number padded with zeros to
/// `pad` digits (at least one), a dot, and the lower-cased target extension.
pub open spec fn renamed_name(number: u64, pad: usize, extension: Seq<char>) -> Seq<char> {
    let width: nat = if pad < 1 { 1 } else { pad as nat };
    zero_padded(decimal(number as nat), width) + seq!['.'] + lower_seq(extension)
}

/// `format!("{:0pad$}.{ext}", number)` with the extension lower-cased.
pub fn renamed_file_name(number: u64, pad: usize, extension: &str) -> (r: String)
    ensures
        r@ == renamed_name(number, pad, extension@),
{
    let width = if pad < 1 { 1 } else { pad };
    let mut out: Vec<char> = Vec::new();
    push_zero_padded(&mut out, number, width);
    out.push('.');
    let e = chars_of(extension);
    let l = lower_chars(&e);
    push_chars(&mut out, &l);
    let r = string_of(&out);
    assert(r@ =~= renamed_name(number, pad, extension@));
    r
}

/// The names joined with `", "`.
pub open spec fn joined(names: Seq<Seq<char>>) -> Seq<char>
    decreases names.len(),
{
    if names.len() == 0 {
        Seq::empty()
    } else if names.len() == 1 {
        names[0]
    } else {
        joined(names.drop_last()) + ", "@ + names.last()
    }
}

/// The warning about skipped entries: their count, the first five of them, and
/// how many more there are.
pub open spec fn skipped_warning(skipped: Seq<Seq<char>>) -> Seq<char> {
    let shown = if skipped.len() <= 5 { skipped } else { skipped.take(5) };
    let more = if skipped.len() > 5 {
        " (+"@ + decimal((skipped.len() - 5) as nat) + " more)"@
    } else {
        Seq::empty()
    };
    "Skipped "@ + decimal(skipped.len()) + " non-image entries: "@ + joined(shown) + more
}

/// The warnings that the renaming reports for the entries it skipped: none
/// when nothing was skipped, else one line naming up to five of them.
pub fn build_warnings(skipped: &Vec<String>) -> (r: Vec<String>)
    ensures
        skipped@.len() == 0 ==> r@.len() == 0,
        skipped@.len() > 0 ==> r@.len() == 1 && r@[0]@ == skipped_warning(
            skipped@.map_values(|x: String| x@),
        ),
{
    if skipped.len() == 0 {
        return Vec::new();
    }
    let ghost views = skipped@.map_values(|x: String| x@);
    let count = skipped.len();
    let shown: usize = if count <= 5 { count } else { 5 };
    let mut out: Vec<char> = Vec::new();
    push_str(&mut out, "Skipped ");
    push_decimal(&mut out, count as u64);
    push_str(&mut out, " non-image entries: ");
    let ghost head = out@;
    let mut k: usize = 0;
    while k < shown
        invariant
            shown <= skipped@.len(),
            k <= shown,
            views == skipped@.map_values(|x: String| x@),
            out@ == head + joined(views.take(k as int)),
        decreases shown - k,
    {
        if k > 0 {
            push_str(&mut out, ", ");
        }
        let name = chars_of(skipped[k].as_str());
        push_chars(&mut out, &name);
        proof {
            let t = views.take(k + 1);
            assert(t.drop_last() =~= views.take(k as int));
            assert(t.last() == skipped@[k as int]@);
            if k == 0 {
                assert(views.take(0).len() == 0);
                assert(joined(views.take(0)) =~= Seq::<char>::empty());
                assert(joined(t) == t[0]);
            }
        }
        assert(out@ =~= head + joined(views.take(k + 1)));
        k = k + 1;
    }
    let ghost after = out@;
    if count > 5 {
        push_str(&mut out, " (+");
        push_decimal(&mut out, (count - 5) as u64);
        push_str(&mut out, " more)");
    }
    proof {
        if count <= 5 {
            assert(views.take(shown as int) =~= views);
        }
    }
    let line = string_of(&out);
    assert(line@ =~= skipped_warning(views));
    let mut r: Vec<String> = Vec::new();
    r.push(line);
    r
}

// ---------------------------------------------------------------------------
// The renaming plan
// ---------------------------------------------------------------------------

/// One entry of the directory being renamed.
#[derive(Debug, PartialEq, Eq)]
pub struct DirEntryInfo {
    pub name: String,
    pub is_dir: bool,
}

/// Files with a supported image extension are renamed; everything else is
/// skipped.
pub open spec fn is_rename_candidate(e: DirEntryInfo) -> bool {
    !e.is_dir && is_supported_name(e.name@)
}

/// How a skipped entry is listed: directories with a trailing `/`.
pub open spec fn skip_label(e: DirEntryInfo) -> Seq<char> {
    if e.is_dir {
        e.name@ + seq!['/']
    } else {
        e.name@
    }
}

/// Indices of the entries that are renamed, in listing order.
pub open spec fn candidate_indices(listing: Seq<DirEntryInfo>) -> Seq<usize>
    decreases listing.len(),
{
    if listing.len() == 0 {
        Seq::empty()
    } else {
        let rest = candidate_indices(listing.drop_last());
        if is_rename_candidate(listing.last()) {
            rest.push((listing.len() - 1) as usize)
        } else {
            rest
        }
    }
}

/// Labels of the skipped entries, in listing order.
pub open spec fn skipped_labels(listing: Seq<DirEntryInfo>) -> Seq<Seq<char>>
    decreases listing.len(),
{
    if listing.len() == 0 {
        Seq::empty()
    } else {
        let rest = skipped_labels(listing.drop_last());
        if is_rename_candidate(listing.last()) {
            rest
        } else {
            rest.push(skip_label(listing.last()))
        }
    }
}

/// What the renaming does to a directory, before any file is touched.
pub struct RenamePlan {
    /// The renamed pages, in natural order of their old names.
    pub entries: Vec<RenameEntry>,
    /// For each entry, the index of its file in the listing.
    pub sources: Vec<usize>,
    /// The sequence number of each entry.
    pub numbers: Vec<u64>,
    /// The labels of the skipped entries, in listing order.
    pub skipped: Vec<String>,
    /// The warnings about skipped entries.
    pub warnings: Vec<String>,
}

/// The plan is the renaming of `listing`: candidates in stable natural order,
/// each numbered by [`is_sequence_plan`] from the number its name ends with,
/// and named by [`renamed_name`].
pub open spec fn is_rename_plan(
    listing: Seq<DirEntryInfo>,
    pad: usize,
    extension: Seq<char>,
    plan: RenamePlan,
) -> bool {
    let cands = candidate_indices(listing);
    let names = cands.map_values(|i: usize| listing[i as int].name);
    let n = plan.entries@.len();
    &&& plan.sources@.len() == n
    &&& plan.numbers@.len() == n
    &&& n == cands.len()
    &&& exists|order: Seq<usize>|
        {
            &&& #[trigger] is_natural_sort(names, order)
            &&& forall|k: int| 0 <= k < n ==> plan.sources@[k] == cands[order[k] as int]
        }
    &&& is_sequence_plan(
        plan.sources@.map_values(|i: usize| numeric_suffix(listing[i as int].name@)),
        plan.numbers@,
    )
    &&& forall|k: int|
        0 <= k < n ==> {
            &&& #[trigger] plan.entries@[k].original_name@ == listing[plan.sources@[k] as int].name@
            &&& plan.entries@[k].renamed_name@ == renamed_name(plan.numbers@[k], pad, extension)
        }
    &&& plan.skipped@.map_values(|x: String| x@) == skipped_labels(listing)
    &&& skipped_labels(listing).len() == 0 ==> plan.warnings@.len() == 0
    &&& skipped_labels(listing).len() > 0 ==> plan.warnings@.len() == 1
        && plan.warnings@[0]@ == skipped_warning(skipped_labels(listing))
}

/// The renaming of a directory listing: which files are renamed, in which
/// order, to which names, and what is skipped. `None` when no entry is an
/// image.
pub fn plan_rename(listing: &Vec<DirEntryInfo>, pad: usize, target_extension: &str) -> (r:
    Option<RenamePlan>)
    ensures
        r is None <==> candidate_indices(listing@).len() == 0,
        r matches Some(plan) ==> is_rename_plan(listing@, pad, target_extension@, plan),
        r matches Some(plan) ==> forall|k: int| 0 <= k < plan.numbers@.len() ==> #[trigger] plan.numbers@[k] >= 1,
        r matches Some(plan) ==> forall|i: int, j: int| 0 <= i < j < plan.entries@.len()
            ==> plan.entries@[i].renamed_name@ != plan.entries@[j].renamed_name@,
{
    let mut cands: Vec<usize> = Vec::new();
    let mut names: Vec<String> = Vec::new();
    let mut skipped: Vec<String> = Vec::new();
    let mut i: usize = 0;
    while i < listing.len()
        invariant
            i <= listing@.len(),
            cands@ == candidate_indices(listing@.take(i as int)),
            names@.len() == cands@.len(),
            forall|k: int| 0 <= k < cands@.len() ==> #[trigger] names@[k] == listing@[cands@[k] as int].name,
            forall|k: int| 0 <= k < cands@.len() ==> #[trigger] cands@[k] < i,
            skipped@.map_values(|x: String| x@) == skipped_labels(listing@.take(i as int)),
        decreases listing.len() - i,
    {
        let e = &listing[i];
        let ghost pre = listing@.take(i as int);
        assert(listing@.take(i + 1).drop_last() =~= pre);
        assert(listing@.take(i + 1).last() == listing@[i as int]);
        if !e.is_dir && is_supported_image(e.name.as_str()) {
            cands.push(i);
            names.push(e.name.clone());
        } else {
            let mut label = chars_of(e.name.as_str());
            if e.is_dir {
                label.push('/');
            }
            let s = string_of(&label);
            assert(s@ == skip_label(listing@[i as int]));
            let ghost old_skipped = skipped@;
            skipped.push(s);
            assert(skipped@ == old_skipped.push(s));
            assert(skipped@.map_values(|x: String| x@) =~= old_skipped.map_values(|x: String| x@).push(
                s@,
            ));
        }
        i = i + 1;
    }
    assert(listing@.take(listing@.len() as int) =~= listing@);
    if cands.len() == 0 {
        return None;
    }
    let order = natural_sort_indices(&names);
    let ghost names_view = names@;
    assert(names_view =~= candidate_indices(listing@).map_values(
        |i: usize| listing@[i as int].name,
    ));
    let mut sources: Vec<usize> = Vec::new();
    let mut hints: Vec<Option<u64>> = Vec::new();
    let mut k: usize = 0;
    while k < order.len()
        invariant
            is_natural_sort(names@, order@),
            names@.len() == cands@.len(),
            forall|m: int| 0 <= m < cands@.len() ==> #[trigger] names@[m] == listing@[cands@[m] as int].name,
            forall|m: int| 0 <= m < cands@.len() ==> #[trigger] cands@[m] < listing@.len(),
            k <= order@.len(),
            sources@.len() == k,
            hints@.len() == k,
            forall|m: int| 0 <= m < k ==> #[trigger] sources@[m] == cands@[order@[m] as int],
            forall|m: int| 0 <= m < k ==> #[trigger] hints@[m] == numeric_suffix(
                listing@[sources@[m] as int].name@,
            ),
        decreases order.len() - k,
    {
        let j = order[k];
        let src = cands[j];
        sources.push(src);
        hints.push(extract_numeric_suffix(listing[src].name.as_str()));
        k = k + 1;
    }
    let numbers = assign_sequence_numbers(&hints);
    assert(hints@ =~= sources@.map_values(|i: usize| numeric_suffix(listing@[i as int].name@)));
    let mut entries: Vec<RenameEntry> = Vec::new();
    let mut m: usize = 0;
    while m < sources.len()
        invariant
            sources@.len() == numbers@.len(),
            forall|q: int| 0 <= q < numbers@.len() ==> #[trigger] numbers@[q] >= 1,
            forall|q: int| 0 <= q < sources@.len() ==> #[trigger] sources@[q] < listing@.len(),
            m <= sources@.len(),
            entries@.len() == m,
            forall|q: int|
                0 <= q < m ==> {
                    &&& #[trigger] entries@[q].original_name@ == listing@[sources@[q] as int].name@
                    &&& entries@[q].renamed_name@ == renamed_name(
                        numbers@[q],
                        pad,
                        target_extension@,
                    )
                },
        decreases sources.len() - m,
    {
        let src = sources[m];
        entries.push(
            RenameEntry {
                original_name: listing[src].name.clone(),
                renamed_name: renamed_file_name(numbers[m], pad, target_extension),
            },
        );
        m = m + 1;
    }
    let warnings = build_warnings(&skipped);
    let plan = RenamePlan { entries, sources, numbers, skipped, warnings };
    assert(is_natural_sort(names_view, order@));
    proof {
        lemma_plan_names_distinct(listing@, pad, target_extension@, plan);
    }
    Some(plan)
}

// ---------------------------------------------------------------------------
// New names do not collide
// ---------------------------------------------------------------------------

proof fn lemma_decimal_value(n: nat)
    ensures
        digits_value(decimal(n)) == n,
    decreases n,
{
    let r = n % 10;
    assert(crate::text::digit_value(crate::text::digit_char(r)) == r) by {
        assert(((r + 48) as char) as int == r + 48);
    }
    if n >= 10 {
        lemma_decimal_value(n / 10);
        let d = decimal(n / 10).push(crate::text::digit_char(r));
        assert(d.drop_last() =~= decimal(n / 10));
        assert(d.last() == crate::text::digit_char(r));
        assert(n == (n / 10) * 10 + r);
        assert(decimal(n) == d);
        assert(digits_value(d) == digits_value(d.drop_last()) * 10 + crate::text::digit_value(d.last()));
    } else {
        let d = seq![crate::text::digit_char(n)];
        assert(decimal(n) == d);
        assert(d.drop_last() =~= Seq::<char>::empty());
        assert(digits_value(d) == digits_value(d.drop_last()) * 10 + crate::text::digit_value(d.last()));
        assert(r == n);
    }
}

proof fn lemma_zero_run_value(z: Seq<char>)
    requires
        forall|k: int| 0 <= k < z.len() ==> z[k] == '0',
    ensures
        digits_value(z) == 0,
    decreases z.len(),
{
    if z.len() > 0 {
        lemma_zero_run_value(z.drop_last());
    }
}

proof fn lemma_leading_zeros(z: Seq<char>, s: Seq<char>)
    requires
        forall|k: int| 0 <= k < z.len() ==> z[k] == '0',
    ensures
        digits_value(z + s) == digits_value(s),
    decreases s.len(),
{
    if s.len() == 0 {
        assert(z + s =~= z);
        lemma_zero_run_value(z);
    } else {
        lemma_leading_zeros(z, s.drop_last());
        assert((z + s).drop_last() =~= z + s.drop_last());
        assert((z + s).last() == s.last());
    }
}

proof fn lemma_padded_value(n: nat, width: nat)
    ensures
        digits_value(zero_padded(decimal(n), width)) == n,
{
    lemma_decimal_value(n);
    let d = decimal(n);
    if d.len() < width {
        let z = Seq::new((width - d.len()) as nat, |i: int| '0');
        lemma_leading_zeros(z, d);
    }
}

/// Two pages with different sequence numbers get different names, whatever
/// the width and extension.
pub proof fn lemma_renamed_name_injective(a: u64, b: u64, pad: usize, extension: Seq<char>)
    requires
        a != b,
    ensures
        renamed_name(a, pad, extension) != renamed_name(b, pad, extension),
{
    let width: nat = if pad < 1 { 1 } else { pad as nat };
    let pa = zero_padded(decimal(a as nat), width);
    let pb = zero_padded(decimal(b as nat), width);
    let tail = seq!['.'] + lower_seq(extension);
    lemma_padded_value(a as nat, width);
    lemma_padded_value(b as nat, width);
    if renamed_name(a, pad, extension) == renamed_name(b, pad, extension) {
        assert(renamed_name(a, pad, extension) =~= pa + tail);
        assert(renamed_name(b, pad, extension) =~= pb + tail);
        assert(pa.len() == pb.len());
        assert(pa =~= (pa + tail).subrange(0, pa.len() as int));
        assert(pb =~= (pb + tail).subrange(0, pb.len() as int));
    }
}

/// A renaming never gives two pages the same new name: the sequence numbers of
/// a plan are pairwise different, and so are the names made from them.
pub proof fn lemma_plan_names_distinct(listing: Seq<DirEntryInfo>, pad: usize, extension: Seq<char>, plan: RenamePlan)
    requires
        is_rename_plan(listing, pad, extension, plan),
    ensures
        forall|i: int, j: int|
            0 <= i < j < plan.entries@.len() ==> plan.entries@[i].renamed_name@ != plan.entries@[j].renamed_name@,
{
    let hints = plan.sources@.map_values(|i: usize| numeric_suffix(listing[i as int].name@));
    let numbers = plan.numbers@;
    assert forall|i: int, j: int| 0 <= i < j < plan.entries@.len() implies plan.entries@[i].renamed_name@ != plan.entries@[j].renamed_name@ by {
        assert(number_fits(hints, numbers, j));
        assert(numbers.take(j).contains(numbers[i])) by {
            assert(numbers.take(j)[i] == numbers[i]);
        }
        assert(numbers[i] != numbers[j]);
        lemma_renamed_name_injective(numbers[i], numbers[j], pad, extension);
        assert(plan.entries@[i].original_name@ == listing[plan.sources@[i] as int].name@);
        assert(plan.entries@[j].original_name@ == listing[plan.sources@[j] as int].name@);
        assert(plan.entries@[i].renamed_name@ == renamed_name(numbers[i], pad, extension));
        assert(plan.entries@[j].renamed_name@ == renamed_name(numbers[j], pad, extension));
    }
}

} // verus!
