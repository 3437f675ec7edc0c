//! Generators of key sets with a known shape.

use vstd::prelude::*;

verus! {

/// `Vec::into_boxed_slice`: trusted to give a boxed slice that holds the
/// bytes of the vector, in order.
#[verifier::external_body]
fn into_boxed(bytes: Vec<u8>) -> (boxed: Box<[u8]>)
    ensures
        boxed@ == bytes@,
{
    bytes.into_boxed_slice()
}

/// The key of the given index among the skewed keys: as many zero bytes as
/// the index says, followed by one byte 255.
pub open spec fn skewed_key(index: nat) -> Seq<u8> {
    Seq::new(index, |i: int| 0u8).push(255u8)
}

/// Generate bytestring keys of increasing length up to a maximum value.
///
/// This produces `max_len` keys. Each key has the form `[0*, u8::MAX]`,
/// meaning zero or more 0 values, followed by a single `u8::MAX` value. The
/// final `u8::MAX` value is added to ensure that no key is a prefix of
/// another key generated by this function.
pub fn generate_keys_skewed(max_len: usize) -> (keys: Vec<Box<[u8]>>)
    requires
        max_len > 0,
    ensures
        keys@.len() == max_len,
        forall|i: int| 0 <= i < keys@.len() ==> (#[trigger] keys@[i])@ == skewed_key(i as nat),
{
    let mut keys: Vec<Box<[u8]>> = Vec::new();
    let mut len: usize = 0;
    while len < max_len
        invariant
            len <= max_len,
            keys@.len() == len,
            forall|i: int| 0 <= i < keys@.len() ==> (#[trigger] keys@[i])@ == skewed_key(i as nat),
        decreases max_len - len,
    {
        let mut key = vec![u8::MIN; len];
        key.push(u8::MAX);
        assert(key@ =~= skewed_key(len as nat));
        keys.push(into_boxed(key));
        len += 1;
    }
    keys
}

/// The step from one digit value to the next: 255 divided by the number of
/// stops, rounded up.
pub open spec fn digit_step(value_stops: nat) -> nat {
    ((255 + value_stops - 1) / value_stops as int) as nat
}

/// The number of digit values: the multiples of the step below 255, and
/// 255.
pub open spec fn digit_count(value_stops: nat) -> nat {
    ((255 + digit_step(value_stops) - 1) / digit_step(value_stops) as int + 1) as nat
}

/// The digit value of the given rank: the rank times the step, or 255 where
/// that would be more.
pub open spec fn digit_value(rank: nat, value_stops: nat) -> u8 {
    if rank * digit_step(value_stops) >= 255 {
        255u8
    } else {
        (rank * digit_step(value_stops)) as u8
    }
}

/// The number of keys of the given length over `base` digit values.
pub open spec fn key_count(base: nat, len: nat) -> nat
    decreases len,
{
    if len == 0 {
        1
    } else {
        base * key_count(base, (len - 1) as nat)
    }
}

/// The key of the given index among the keys of a fixed length: the index
/// written with `len` digits, the most significant first, each digit of
/// rank `r` written as its digit value.
pub open spec fn fixed_length_key(index: nat, len: nat, value_stops: nat) -> Seq<u8>
    decreases len,
{
    if len == 0 {
        Seq::empty()
    } else {
        fixed_length_key(
            index / digit_count(value_stops),
            (len - 1) as nat,
            value_stops,
        ).push(digit_value(index % digit_count(value_stops), value_stops))
    }
}

/// There are no fewer keys of a greater length.
pub proof fn lemma_key_count_grows(base: nat, shorter: nat, longer: nat)
    requires
        base >= 1,
        shorter <= longer,
    ensures
        1 <= key_count(base, shorter) <= key_count(base, longer),
    decreases longer,
{
    if longer > 0 {
        if shorter == longer {
            lemma_key_count_grows(base, (shorter - 1) as nat, (longer - 1) as nat);
        } else {
            lemma_key_count_grows(base, shorter, (longer - 1) as nat);
        }
        let fewer = key_count(base, (longer - 1) as nat);
        assert(base * fewer >= fewer) by (nonlinear_arith)
            requires
                base >= 1,
                fewer >= 0,
        ;
        if shorter == longer {
            let less = key_count(base, (shorter - 1) as nat);
            assert(base * less >= 1) by (nonlinear_arith)
                requires
                    base >= 1,
                    less >= 1,
            ;
        }
    }
}

/// 255 divided by a number from 1 to 255, rounded up, is a number from 1 to
/// 255.
pub proof fn lemma_rounded_up_quotient(divisor: int)
    requires
        1 <= divisor <= 255,
    ensures
        1 <= (255 + divisor - 1) / divisor <= 255,
{
    assert(1 <= (255 + divisor - 1) / divisor <= 255) by (nonlinear_arith)
        requires
            1 <= divisor <= 255,
    ;
}

/// Whether a product stays under a bound is seen from the quotient of the
/// bound by one factor.
pub proof fn lemma_product_bound(factor: int, base: int, bound: int)
    requires
        factor >= 0,
        base >= 1,
        bound >= 0,
    ensures
        factor > bound / base ==> base * factor > bound,
        factor <= bound / base ==> base * factor <= bound,
        base * factor == factor * base,
{
    assert(factor > bound / base ==> base * factor > bound) by (nonlinear_arith)
        requires
            factor >= 0,
            base >= 1,
            bound >= 0,
    ;
    assert(factor <= bound / base ==> base * factor <= bound) by (nonlinear_arith)
        requires
            factor >= 0,
            base >= 1,
            bound >= 0,
    ;
    assert(base * factor == factor * base) by (nonlinear_arith);
}

/// The number of keys of the given length, where it fits the machine.
pub fn number_of_keys(max_len: usize, value_stops: u8) -> (count: Option<usize>)
    requires
        value_stops > 0,
    ensures
        count is Some <==> key_count(digit_count(value_stops as nat), max_len as nat)
            <= usize::MAX,
        count is Some ==> count->0 == key_count(digit_count(value_stops as nat), max_len as nat),
{
    let stops = value_stops as usize;
    let increment = (255 + stops - 1) / stops;
    proof {
        lemma_rounded_up_quotient(stops as int);
    }
    let base = (255 + increment - 1) / increment + 1;
    proof {
        lemma_rounded_up_quotient(increment as int);
        assert(base == digit_count(value_stops as nat));
    }
    let mut total: usize = 1;
    let mut len: usize = 0;
    while len < max_len
        invariant
            len <= max_len,
            2 <= base <= 256,
            base == digit_count(value_stops as nat),
            total == key_count(base as nat, len as nat),
        decreases max_len - len,
    {
        proof {
            lemma_key_count_grows(base as nat, (len + 1) as nat, max_len as nat);
            assert(key_count(base as nat, (len + 1) as nat) == base * total);
        }
        proof {
            lemma_product_bound(total as int, base as int, usize::MAX as int);
        }
        if total > usize::MAX / base {
            return None;
        }
        total = total * base;
        len += 1;
    }
    Some(total)
}

/// Generate bytestring keys, all with the same length.
///
/// This produces every string of length `max_len` over the alphabet
/// `{ 0, step, 2 * step, ..., 255 }`, where `step` is 255 divided by
/// `value_stops`, rounded up. The keys come in ascending order.
pub fn generate_key_fixed_length(max_len: usize, value_stops: u8) -> (keys: Vec<Box<[u8]>>)
    requires
        max_len > 0,
        value_stops > 0,
        key_count(digit_count(value_stops as nat), max_len as nat) <= usize::MAX,
    ensures
        keys@.len() == key_count(digit_count(value_stops as nat), max_len as nat),
        forall|i: int|
            0 <= i < keys@.len() ==> (#[trigger] keys@[i])@ == fixed_length_key(
                i as nat,
                max_len as nat,
                value_stops as nat,
            ),
{
    let stops = value_stops as usize;
    let increment = (255 + stops - 1) / stops;
    proof {
        lemma_rounded_up_quotient(stops as int);
    }
    let base = (255 + increment - 1) / increment + 1;
    proof {
        lemma_rounded_up_quotient(increment as int);
        assert(increment == digit_step(value_stops as nat));
        assert(base == digit_count(value_stops as nat));
    }
    let mut total: usize = 1;
    let mut len: usize = 0;
    while len < max_len
        invariant
            len <= max_len,
            2 <= base <= 256,
            total == key_count(base as nat, len as nat),
            key_count(base as nat, max_len as nat) <= usize::MAX,
        decreases max_len - len,
    {
        proof {
            lemma_key_count_grows(base as nat, (len + 1) as nat, max_len as nat);
            assert(total * base == base * total) by (nonlinear_arith);
            assert(key_count(base as nat, (len + 1) as nat) == base * total);
        }
        total = total * base;
        len += 1;
    }
    let mut keys: Vec<Box<[u8]>> = Vec::new();
    let mut index: usize = 0;
    while index < total
        invariant
            index <= total,
            keys@.len() == index,
            2 <= base <= 256,
            1 <= increment <= 255,
            increment == digit_step(value_stops as nat),
            base == digit_count(value_stops as nat),
            forall|i: int|
                0 <= i < keys@.len() ==> (#[trigger] keys@[i])@ == fixed_length_key(
                    i as nat,
                    max_len as nat,
                    value_stops as nat,
                ),
        decreases total - index,
    {
        let mut key = vec![u8::MIN; max_len];
        let mut rest = index;
        let mut place = max_len;
        while place > 0
            invariant
                place <= max_len,
                key@.len() == max_len,
                2 <= base <= 256,
                1 <= increment <= 255,
                increment == digit_step(value_stops as nat),
                base == digit_count(value_stops as nat),
                fixed_length_key(index as nat, max_len as nat, value_stops as nat)
                    == fixed_length_key(rest as nat, place as nat, value_stops as nat) + key@.subrange(
                    place as int,
                    max_len as int,
                ),
            decreases place,
        {
            let rank = rest % base;
            assert(rank * increment <= 255 * 255) by (nonlinear_arith)
                requires
                    rank <= 255,
                    increment <= 255,
            ;
            let scaled = rank * increment;
            let digit: u8 = if scaled >= 255 {
                u8::MAX
            } else {
                scaled as u8
            };
            assert(digit == digit_value(rank as nat, value_stops as nat));
            let ghost before = key@;
            place -= 1;
            key[place] = digit;
            proof {
                let upper = fixed_length_key(
                    (rest / base) as nat,
                    place as nat,
                    value_stops as nat,
                );
                assert(fixed_length_key(rest as nat, (place + 1) as nat, value_stops as nat)
                    == upper.push(digit));
                assert(upper.push(digit) + before.subrange(place + 1, max_len as int) =~= upper
                    + key@.subrange(place as int, max_len as int));
            }
            rest = rest / base;
        }
        assert(key@ =~= fixed_length_key(index as nat, max_len as nat, value_stops as nat));
        keys.push(into_boxed(key));
        index += 1;
    }
    keys
}

/// One place of a key that is to be repeated.
#[derive(Debug, Clone, Copy, PartialEq, Eq, Structural)]
pub struct PrefixExpansion {
    /// The place in the key.
    pub base_index: usize,
    /// The number of times that the byte of that place is to stand in the
    /// expanded key.
    pub expanded_length: usize,
}

/// Whether each expansion names a place of a key of the given length.
pub open spec fn indices_in_bounds(base_key_len: nat, expansions: Seq<PrefixExpansion>) -> bool {
    forall|i: int| 0 <= i < expansions.len() ==> (#[trigger] expansions[i]).base_index < base_key_len
}

/// Whether each expansion repeats its byte once at least.
pub open spec fn lengths_positive(expansions: Seq<PrefixExpansion>) -> bool {
    forall|i: int| 0 <= i < expansions.len() ==> (#[trigger] expansions[i]).expanded_length > 0
}

/// Whether no two expansions name the same place.
pub open spec fn indices_unique(expansions: Seq<PrefixExpansion>) -> bool {
    forall|i: int, j: int|
        0 <= i < j < expansions.len() ==> (#[trigger] expansions[i]).base_index
            != (#[trigger] expansions[j]).base_index
}

/// Whether the expansions fit keys of the given length: each names a place
/// of the key, no two name the same place, and none repeats its byte zero
/// times.
pub open spec fn valid_expansions(base_key_len: nat, expansions: Seq<PrefixExpansion>) -> bool {
    &&& indices_in_bounds(base_key_len, expansions)
    &&& lengths_positive(expansions)
    &&& indices_unique(expansions)
}

/// The number of times that the byte of a place is to stand in the
/// expanded key: once, unless an expansion names the place.
pub open spec fn repetitions(expansions: Seq<PrefixExpansion>, place: int) -> nat {
    if exists|i: int| 0 <= i < expansions.len() && (#[trigger] expansions[i]).base_index == place {
        let i = choose|i: int|
            0 <= i < expansions.len() && (#[trigger] expansions[i]).base_index == place;
        expansions[i].expanded_length as nat
    } else {
        1
    }
}

/// The key with the byte of each place repeated as the expansions say.
pub open spec fn expanded_key(key: Seq<u8>, expansions: Seq<PrefixExpansion>) -> Seq<u8>
    decreases key.len(),
{
    if key.len() == 0 {
        Seq::empty()
    } else {
        expanded_key(key.drop_last(), expansions) + Seq::new(
            repetitions(expansions, key.len() - 1),
            |i: int| key.last(),
        )
    }
}

/// Whether each expansion names a place of a key of the given length.
pub fn expansion_indices_in_bounds(base_key_len: usize, expansions: &[PrefixExpansion]) -> (valid:
    bool)
    ensures
        valid == indices_in_bounds(base_key_len as nat, expansions@),
{
    let mut at: usize = 0;
    while at < expansions.len()
        invariant
            at <= expansions@.len(),
            forall|i: int| 0 <= i < at ==> (#[trigger] expansions@[i]).base_index < base_key_len,
        decreases expansions@.len() - at,
    {
        if expansions[at].base_index >= base_key_len {
            return false;
        }
        at += 1;
    }
    true
}

/// Whether each expansion repeats its byte once at least.
pub fn expansion_lengths_positive(expansions: &[PrefixExpansion]) -> (valid: bool)
    ensures
        valid == lengths_positive(expansions@),
{
    let mut at: usize = 0;
    while at < expansions.len()
        invariant
            at <= expansions@.len(),
            forall|i: int| 0 <= i < at ==> (#[trigger] expansions@[i]).expanded_length > 0,
        decreases expansions@.len() - at,
    {
        if expansions[at].expanded_length == 0 {
            return false;
        }
        at += 1;
    }
    true
}

/// Whether no two expansions name the same place.
pub fn expansion_indices_unique(expansions: &[PrefixExpansion]) -> (valid: bool)
    ensures
        valid == indices_unique(expansions@),
{
    let mut at: usize = 0;
    while at < expansions.len()
        invariant
            at <= expansions@.len(),
            forall|i: int, j: int|
                0 <= i < j < at ==> (#[trigger] expansions@[i]).base_index
                    != (#[trigger] expansions@[j]).base_index,
        decreases expansions@.len() - at,
    {
        let expansion = expansions[at];
        let mut earlier: usize = 0;
        while earlier < at
            invariant
                earlier <= at < expansions@.len(),
                expansion == expansions@[at as int],
                forall|i: int|
                    0 <= i < earlier ==> (#[trigger] expansions@[i]).base_index
                        != expansion.base_index,
            decreases at - earlier,
        {
            if expansions[earlier].base_index == expansion.base_index {
                return false;
            }
            earlier += 1;
        }
        at += 1;
    }
    true
}

/// Whether the expansions fit keys of the given length.
pub fn check_expansions(base_key_len: usize, expansions: &[PrefixExpansion]) -> (valid: bool)
    ensures
        valid == valid_expansions(base_key_len as nat, expansions@),
{
    expansion_indices_in_bounds(base_key_len, expansions) && expansion_lengths_positive(expansions)
        && expansion_indices_unique(expansions)
}

/// The number of times that the byte of a place is to stand in the
/// expanded key.
fn repetitions_of(expansions: &[PrefixExpansion], place: usize) -> (times: usize)
    requires
        forall|i: int, j: int|
            0 <= i < j < expansions@.len() ==> (#[trigger] expansions@[i]).base_index
                != (#[trigger] expansions@[j]).base_index,
    ensures
        times == repetitions(expansions@, place as int),
{
    let mut at: usize = 0;
    while at < expansions.len()
        invariant
            at <= expansions@.len(),
            forall|i: int| 0 <= i < at ==> (#[trigger] expansions@[i]).base_index != place,
            forall|i: int, j: int|
                0 <= i < j < expansions@.len() ==> (#[trigger] expansions@[i]).base_index
                    != (#[trigger] expansions@[j]).base_index,
        decreases expansions@.len() - at,
    {
        if expansions[at].base_index == place {
            proof {
                let here = expansions@[at as int];
                assert(0 <= at < expansions@.len() && here.base_index == place);
                let found = choose|i: int|
                    0 <= i < expansions@.len() && (#[trigger] expansions@[i]).base_index == place;
                let there = expansions@[found];
                assert(0 <= found < expansions@.len() && there.base_index == place);
                if found < at {
                    assert(expansions@[found].base_index != expansions@[at as int].base_index);
                } else if found > at {
                    assert(expansions@[at as int].base_index != expansions@[found].base_index);
                }
            }
            return expansions[at].expanded_length;
        }
        at += 1;
    }
    1
}

/// The key with the byte of each place repeated as the expansions say.
fn apply_expansions_to_key(old_key: &[u8], expansions: &[PrefixExpansion]) -> (new_key: Vec<u8>)
    requires
        forall|i: int, j: int|
            0 <= i < j < expansions@.len() ==> (#[trigger] expansions@[i]).base_index
                != (#[trigger] expansions@[j]).base_index,
    ensures
        new_key@ == expanded_key(old_key@, expansions@),
{
    let mut new_key: Vec<u8> = Vec::new();
    let mut place: usize = 0;
    while place < old_key.len()
        invariant
            place <= old_key@.len(),
            forall|i: int, j: int|
                0 <= i < j < expansions@.len() ==> (#[trigger] expansions@[i]).base_index
                    != (#[trigger] expansions@[j]).base_index,
            new_key@ == expanded_key(old_key@.take(place as int), expansions@),
        decreases old_key@.len() - place,
    {
        let times = repetitions_of(expansions, place);
        let byte = old_key[place];
        let ghost before = new_key@;
        let mut written: usize = 0;
        while written < times
            invariant
                written <= times,
                new_key@ == before + Seq::new(written as nat, |i: int| byte),
            decreases times - written,
        {
            new_key.push(byte);
            written += 1;
            assert(new_key@ =~= before + Seq::new(written as nat, |i: int| byte));
        }
        proof {
            let longer = old_key@.take(place + 1);
            assert(longer.drop_last() =~= old_key@.take(place as int));
            assert(longer.last() == byte);
        }
        place += 1;
    }
    assert(old_key@.take(place as int) =~= old_key@);
    new_key
}

/// Generate fixed length bytestring keys, where specific places of the key
/// are expanded as duplicate bytes.
///
/// This is meant to simulate keys with shared prefixes in different portions
/// of the key string. The keys are those of [`generate_key_fixed_length`],
/// each with the byte of every place that an expansion names repeated as
/// often as the expansion says.
pub fn generate_key_with_prefix(
    base_key_len: usize,
    value_stops: u8,
    prefix_expansions: &[PrefixExpansion],
) -> (keys: Vec<Box<[u8]>>)
    requires
        base_key_len > 0,
        value_stops > 0,
        valid_expansions(base_key_len as nat, prefix_expansions@),
        key_count(digit_count(value_stops as nat), base_key_len as nat) <= usize::MAX,
    ensures
        keys@.len() == key_count(digit_count(value_stops as nat), base_key_len as nat),
        forall|i: int|
            0 <= i < keys@.len() ==> (#[trigger] keys@[i])@ == expanded_key(
                fixed_length_key(i as nat, base_key_len as nat, value_stops as nat),
                prefix_expansions@,
            ),
{
    let base_keys = generate_key_fixed_length(base_key_len, value_stops);
    let mut keys: Vec<Box<[u8]>> = Vec::new();
    let mut at: usize = 0;
    while at < base_keys.len()
        invariant
            at <= base_keys@.len(),
            keys@.len() == at,
            valid_expansions(base_key_len as nat, prefix_expansions@),
            forall|i: int|
                0 <= i < base_keys@.len() ==> (#[trigger] base_keys@[i])@ == fixed_length_key(
                    i as nat,
                    base_key_len as nat,
                    value_stops as nat,
                ),
            forall|i: int|
                0 <= i < keys@.len() ==> (#[trigger] keys@[i])@ == expanded_key(
                    fixed_length_key(i as nat, base_key_len as nat, value_stops as nat),
                    prefix_expansions@,
                ),
        decreases base_keys@.len() - at,
    {
        let key = apply_expansions_to_key(&base_keys[at], prefix_expansions);
        keys.push(into_boxed(key));
        at += 1;
    }
    keys
}

} // verus!
