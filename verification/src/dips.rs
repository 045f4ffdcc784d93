//! The dip switches of an image.
//!
//! PinMAME appends the state of its dip switches to the image: 6 bytes, 8
//! switches each. These functions give the state of every switch PinMAME
//! supports, even where the ROM uses only some of them.
use vstd::prelude::*;

use crate::error::NvramError;

verus! {

/// Number of bytes appended to the image for dip switches. PinMAME has at
/// most 10 banks of 8 switches, of which only 6 bytes are written to the
/// image.
pub const DIP_SWITCH_BYTES: usize = 6;

/// Maximum number of dip switches that can be handled.
pub const MAX_SWITCH_COUNT: usize = 48;

/// The state of one dip switch.
#[derive(Debug, Clone, Copy, PartialEq, Eq, Structural)]
pub struct DipSwitchState {
    pub nr: usize,
    pub on: bool,
}

/// The position in an image of `len` bytes of the byte holding switch
/// `number` (1-based), counted from the start.
pub open spec fn dip_position(len: nat, number: nat) -> int {
    len - DIP_SWITCH_BYTES + (number - 1) / 8
}

/// The bit of its byte that holds switch `number`.
pub open spec fn dip_mask(number: nat) -> u8 {
    1u8 << (((number - 1) % 8) as u8)
}

/// Whether `number` names a switch the image can hold.
pub open spec fn in_generic_range(number: nat) -> bool {
    1 <= number <= MAX_SWITCH_COUNT
}

/// What `get_dip_switch` gives.
pub open spec fn spec_get_dip_switch(data: Seq<u8>, number: usize) -> Result<bool, NvramError> {
    if !in_generic_range(number as nat) {
        Err(NvramError::DipSwitchOutOfRange { number, max: MAX_SWITCH_COUNT })
    } else if dip_position(data.len(), number as nat) < 0 {
        Err(NvramError::NegativeSeek)
    } else {
        Ok(data[dip_position(data.len(), number as nat)] & dip_mask(number as nat) != 0)
    }
}

/// The byte holding a switch, with the switch set to `on`.
pub open spec fn with_switch(b: u8, mask: u8, on: bool) -> u8 {
    if on {
        b | mask
    } else {
        b & !mask
    }
}

/// What `set_dip_switch` leaves: the image with the switch's bit set to `on`.
pub open spec fn spec_set_dip_switch(data: Seq<u8>, number: usize, on: bool) -> Result<Seq<u8>, NvramError> {
    if !in_generic_range(number as nat) {
        Err(NvramError::DipSwitchOutOfRange { number, max: MAX_SWITCH_COUNT })
    } else if dip_position(data.len(), number as nat) < 0 {
        Err(NvramError::NegativeSeek)
    } else {
        let pos = dip_position(data.len(), number as nat);
        Ok(data.update(pos, with_switch(data[pos], dip_mask(number as nat), on)))
    }
}

/// Checks that a switch number is between 1 and the maximum switch count.
pub fn validate_generic_dip_switch_range(number: usize) -> (r: Result<(), NvramError>)
    ensures
        in_generic_range(number as nat) ==> r is Ok,
        !in_generic_range(number as nat) ==> r == Err::<(), NvramError>(
            NvramError::DipSwitchOutOfRange { number, max: MAX_SWITCH_COUNT },
        ),
{
    if number < 1 || number > MAX_SWITCH_COUNT {
        return Err(NvramError::DipSwitchOutOfRange { number, max: MAX_SWITCH_COUNT });
    }
    Ok(())
}

/// Checks that a ROM's switch count fits in the image and that a switch
/// number is between 1 and that count.
pub fn validate_dip_switch_range(switch_count: usize, number: usize) -> (r: Result<(), NvramError>)
    ensures
        switch_count > MAX_SWITCH_COUNT ==> r == Err::<(), NvramError>(
            NvramError::SwitchCountOutOfRange { count: switch_count },
        ),
        switch_count <= MAX_SWITCH_COUNT && (number < 1 || number > switch_count) ==> r == Err::<
            (),
            NvramError,
        >(NvramError::DipSwitchOutOfRange { number, max: switch_count }),
        switch_count <= MAX_SWITCH_COUNT && 1 <= number <= switch_count ==> r is Ok,
{
    if switch_count > MAX_SWITCH_COUNT {
        return Err(NvramError::SwitchCountOutOfRange { count: switch_count });
    }
    if number < 1 || number > switch_count {
        return Err(NvramError::DipSwitchOutOfRange { number, max: switch_count });
    }
    validate_generic_dip_switch_range(number)
}

/// The state of dip switch `number` (1-based).
pub fn get_dip_switch(data: &[u8], number: usize) -> (r: Result<bool, NvramError>)
    ensures
        r == spec_get_dip_switch(data@, number),
{
    validate_generic_dip_switch_range(number)?;
    let index = number - 1;
    let register = index / 8;
    let bit = index % 8;
    if data.len() < DIP_SWITCH_BYTES - register {
        return Err(NvramError::NegativeSeek);
    }
    let pos = data.len() - (DIP_SWITCH_BYTES - register);
    let b = data[pos];
    Ok((b & (1u8 << (bit as u8))) != 0)
}

/// Sets dip switch `number` (1-based) on or off.
pub fn set_dip_switch(data: &mut Vec<u8>, number: usize, on: bool) -> (r: Result<(), NvramError>)
    ensures
        match spec_set_dip_switch(old(data)@, number, on) {
            Ok(d) => r is Ok && final(data)@ == d,
            Err(e) => r == Err::<(), NvramError>(e) && final(data)@ == old(data)@,
        },
{
    validate_generic_dip_switch_range(number)?;
    let index = number - 1;
    let register = index / 8;
    let bit = index % 8;
    if data.len() < DIP_SWITCH_BYTES - register {
        return Err(NvramError::NegativeSeek);
    }
    let pos = data.len() - (DIP_SWITCH_BYTES - register);
    let mut b = data[pos];
    let mask = 1u8 << (bit as u8);
    if on {
        b = b | mask;
    } else {
        b = b & !mask;
    }
    data.set(pos, b);
    Ok(())
}

/// What `get_all_dip_switches` gives: the state of every switch, in order,
/// where the image holds the switch bytes.
pub open spec fn spec_all_dip_switches(data: Seq<u8>) -> Option<Seq<DipSwitchState>> {
    if data.len() < DIP_SWITCH_BYTES {
        None
    } else {
        Some(
            Seq::new(
                MAX_SWITCH_COUNT as nat,
                |i: int| DipSwitchState { nr: (i + 1) as usize, on: spec_get_dip_switch(data, (i + 1) as usize)->Ok_0 },
            ),
        )
    }
}

/// The state of every dip switch PinMAME supports, even where the ROM uses
/// only some of them.
pub fn get_all_dip_switches(data: &[u8]) -> (r: Result<Vec<DipSwitchState>, NvramError>)
    ensures
        match spec_all_dip_switches(data@) {
            Some(states) => r matches Ok(v) && v@ == states,
            None => r == Err::<Vec<DipSwitchState>, NvramError>(NvramError::NegativeSeek),
        },
{
    let mut dip_switches: Vec<DipSwitchState> = Vec::new();
    let mut number: usize = 1;
    while number <= MAX_SWITCH_COUNT
        invariant
            1 <= number <= MAX_SWITCH_COUNT + 1,
            data@.len() >= DIP_SWITCH_BYTES || number == 1,
            dip_switches@ =~= Seq::new(
                (number - 1) as nat,
                |i: int| DipSwitchState { nr: (i + 1) as usize, on: spec_get_dip_switch(data@, (i + 1) as usize)->Ok_0 },
            ),
        decreases MAX_SWITCH_COUNT + 1 - number,
    {
        let on = get_dip_switch(data, number)?;
        dip_switches.push(DipSwitchState { nr: number, on });
        number = number + 1;
    }
    Ok(dip_switches)
}

/// What setting a list of switches in turn leaves: the image after each
/// switch up to the first that fails, and that failure.
pub open spec fn spec_set_dip_switches(data: Seq<u8>, states: Seq<DipSwitchState>) -> (Seq<u8>, Option<NvramError>)
    decreases states.len(),
{
    if states.len() == 0 {
        (data, None)
    } else {
        let (d, err) = spec_set_dip_switches(data, states.drop_last());
        if err is Some {
            (d, err)
        } else {
            match spec_set_dip_switch(d, states.last().nr, states.last().on) {
                Ok(d2) => (d2, None),
                Err(e) => (d, Some(e)),
            }
        }
    }
}

proof fn lemma_set_error_persists(data: Seq<u8>, states: Seq<DipSwitchState>, k: int)
    requires
        0 < k <= states.len(),
        spec_set_dip_switches(data, states.take(k)).1 is Some,
    ensures
        spec_set_dip_switches(data, states) == spec_set_dip_switches(data, states.take(k)),
    decreases states.len() - k,
{
    if k < states.len() {
        assert(states.take(k + 1).drop_last() =~= states.take(k));
        assert(spec_set_dip_switches(data, states.take(k + 1)) == spec_set_dip_switches(data, states.take(k)));
        lemma_set_error_persists(data, states, k + 1);
    } else {
        assert(states.take(k) =~= states);
    }
}

/// Sets each of the given switches in turn, stopping at the first that
/// fails; the switches before it stay set.
pub fn set_dip_switches(data: &mut Vec<u8>, dip_switches: &[DipSwitchState]) -> (r: Result<(), NvramError>)
    ensures
        final(data)@ == spec_set_dip_switches(old(data)@, dip_switches@).0,
        match spec_set_dip_switches(old(data)@, dip_switches@).1 {
            Some(e) => r == Err::<(), NvramError>(e),
            None => r is Ok,
        },
{
    let ghost initial = data@;
    let mut i: usize = 0;
    while i < dip_switches.len()
        invariant
            initial == old(data)@,
            i <= dip_switches.len(),
            spec_set_dip_switches(initial, dip_switches@.take(i as int)) == (data@, None::<NvramError>),
        decreases dip_switches.len() - i,
    {
        assert(dip_switches@.take(i + 1).drop_last() =~= dip_switches@.take(i as int));
        assert(dip_switches@.take(i + 1).last() == dip_switches@[i as int]);
        let ghost before = data@;
        let dip_switch = dip_switches[i];
        match set_dip_switch(data, dip_switch.nr, dip_switch.on) {
            Err(e) => {
                assert(spec_set_dip_switches(initial, dip_switches@.take(i + 1)) == (before, Some(e)));
                proof { lemma_set_error_persists(initial, dip_switches@, i + 1); }
                return Err(e);
            },
            Ok(()) => {},
        }
        i = i + 1;
    }
    assert(dip_switches@.take(dip_switches.len() as int) =~= dip_switches@);
    Ok(())
}

proof fn lemma_switch_bits(b: u8, bit: u8, other: u8)
    requires
        bit < 8,
        other < 8,
    ensures
        (b | (1u8 << bit)) & (1u8 << bit) != 0,
        (b & !(1u8 << bit)) & (1u8 << bit) == 0,
        other != bit ==> ((b | (1u8 << bit)) & (1u8 << other)) == (b & (1u8 << other)),
        other != bit ==> ((b & !(1u8 << bit)) & (1u8 << other)) == (b & (1u8 << other)),
{
    assert((b | (1u8 << bit)) & (1u8 << bit) != 0) by (bit_vector) requires bit < 8;
    assert((b & !(1u8 << bit)) & (1u8 << bit) == 0) by (bit_vector) requires bit < 8;
    assert(other != bit ==> ((b | (1u8 << bit)) & (1u8 << other)) == (b & (1u8 << other))) by (bit_vector)
        requires bit < 8, other < 8;
    assert(other != bit ==> ((b & !(1u8 << bit)) & (1u8 << other)) == (b & (1u8 << other))) by (bit_vector)
        requires bit < 8, other < 8;
}

/// Law: after a switch is set, reading it gives the state it was set to.
pub proof fn lemma_get_after_set(data: Seq<u8>, number: usize, on: bool)
    requires
        spec_set_dip_switch(data, number, on) is Ok,
    ensures
        spec_get_dip_switch(spec_set_dip_switch(data, number, on)->Ok_0, number) == Ok::<bool, NvramError>(on),
{
    let bit = ((number - 1) % 8) as u8;
    lemma_switch_bits(data[dip_position(data.len(), number as nat)], bit, bit);
}

/// Law: setting a switch leaves every other switch as it was, and changes no
/// byte but the one that holds the switch.
pub proof fn lemma_set_keeps_others(data: Seq<u8>, number: usize, on: bool, other: usize)
    requires
        spec_set_dip_switch(data, number, on) is Ok,
        other != number,
    ensures
        spec_get_dip_switch(spec_set_dip_switch(data, number, on)->Ok_0, other) == spec_get_dip_switch(data, other),
        spec_set_dip_switch(data, number, on)->Ok_0.len() == data.len(),
        forall|i: int|
            0 <= i < data.len() && i != dip_position(data.len(), number as nat) ==> (#[trigger] spec_set_dip_switch(
                data,
                number,
                on,
            )->Ok_0[i]) == data[i],
{
    let after = spec_set_dip_switch(data, number, on)->Ok_0;
    if in_generic_range(other as nat) && dip_position(data.len(), other as nat) >= 0 {
        let p = dip_position(data.len(), number as nat);
        let q = dip_position(data.len(), other as nat);
        if p == q {
            let bit = ((number - 1) % 8) as u8;
            let obit = ((other - 1) % 8) as u8;
            assert(bit != obit);
            lemma_switch_bits(data[p], bit, obit);
        }
    }
}

/// The state a list of settings last gives switch `number`, where it names
/// it.
pub open spec fn last_setting(states: Seq<DipSwitchState>, number: usize) -> Option<bool>
    decreases states.len(),
{
    if states.len() == 0 {
        None
    } else if states.last().nr == number {
        Some(states.last().on)
    } else {
        last_setting(states.drop_last(), number)
    }
}

/// Law: setting a list of dip switches in an image that holds the switch
/// bytes never fails where each number is in range, and afterwards each
/// switch reads as the last state the list gives it, or as before where the
/// list does not name it.
pub proof fn lemma_set_all_then_get(data: Seq<u8>, states: Seq<DipSwitchState>, number: usize)
    requires
        data.len() >= DIP_SWITCH_BYTES,
        forall|i: int| 0 <= i < states.len() ==> in_generic_range((#[trigger] states[i]).nr as nat),
        in_generic_range(number as nat),
    ensures
        spec_set_dip_switches(data, states).1 is None,
        spec_set_dip_switches(data, states).0.len() == data.len(),
        spec_get_dip_switch(spec_set_dip_switches(data, states).0, number) == match last_setting(states, number) {
            Some(on) => Ok::<bool, NvramError>(on),
            None => spec_get_dip_switch(data, number),
        },
    decreases states.len(),
{
    if states.len() > 0 {
        let prefix = states.drop_last();
        assert forall|i: int| 0 <= i < prefix.len() implies in_generic_range((#[trigger] prefix[i]).nr as nat) by {
            assert(prefix[i] == states[i]);
        }
        lemma_set_all_then_get(data, prefix, number);
        let d = spec_set_dip_switches(data, prefix).0;
        let last = states.last();
        assert(in_generic_range(states[states.len() - 1].nr as nat));
        assert(spec_set_dip_switch(d, last.nr, last.on) is Ok);
        if last.nr == number {
            lemma_get_after_set(d, number, last.on);
        } else {
            lemma_set_keeps_others(d, last.nr, last.on, number);
        }
    }
}

/// Whether `k` is where setting a list of switches stops: every switch
/// before it is in range, and the switch at `k`, if any, is not.
pub open spec fn stops_at(states: Seq<DipSwitchState>, k: int) -> bool {
    &&& 0 <= k <= states.len()
    &&& forall|i: int| 0 <= i < k ==> in_generic_range((#[trigger] states[i]).nr as nat)
    &&& k < states.len() ==> !in_generic_range(states[k].nr as nat)
}

/// Law: in an image that holds the switch bytes, setting a list of switches
/// applies them in turn up to the first whose number is out of range, and
/// fails there with that number (or succeeds where there is none); the image
/// keeps its length, and the switches from the failing one on are not
/// applied.
pub proof fn lemma_set_all_stops_at_first_out_of_range(data: Seq<u8>, states: Seq<DipSwitchState>, k: int)
    requires
        data.len() >= DIP_SWITCH_BYTES,
        stops_at(states, k),
    ensures
        spec_set_dip_switches(data, states.take(k)).1 is None,
        spec_set_dip_switches(data, states).0 == spec_set_dip_switches(data, states.take(k)).0,
        spec_set_dip_switches(data, states).0.len() == data.len(),
        spec_set_dip_switches(data, states).1 == (if k < states.len() {
            Some(NvramError::DipSwitchOutOfRange { number: states[k].nr, max: MAX_SWITCH_COUNT })
        } else {
            None::<NvramError>
        }),
{
    let prefix = states.take(k);
    assert forall|i: int| 0 <= i < prefix.len() implies in_generic_range((#[trigger] prefix[i]).nr as nat) by {
        assert(prefix[i] == states[i]);
    }
    lemma_set_all_then_get(data, prefix, 1);
    if k < states.len() {
        assert(states.take(k + 1).drop_last() =~= prefix);
        assert(states.take(k + 1).last() == states[k]);
        lemma_set_error_persists(data, states, k + 1);
    } else {
        assert(prefix =~= states);
    }
}

/// Bit `k` of a byte is set.
proof fn lemma_mask_bit(x: u8, k: u8)
    requires
        k < 8,
    ensures
        (x & (1u8 << k) != 0) == ((x >> k) & 1u8 == 1u8),
{
    assert((x & (1u8 << k) != 0) == ((x >> k) & 1u8 == 1u8)) by (bit_vector) requires k < 8;
}

/// Law: in an image that ends in the six dip switch bytes, switch `n` (1 to
/// 48) is bit `(n - 1) % 8` of the byte `(n - 1) / 8` places into those six
/// bytes, that is of byte `len - 6 + (n - 1) / 8`.
pub proof fn lemma_dip_switch_is_bit(data: Seq<u8>, n: usize)
    requires
        1 <= n <= 48,
        data.len() >= 6,
    ensures
        spec_get_dip_switch(data, n) == Ok::<bool, NvramError>(
            (data[data.len() - 6 + (n - 1) / 8] >> (((n - 1) % 8) as u8)) & 1u8 == 1u8,
        ),
{
    lemma_mask_bit(data[data.len() - 6 + (n - 1) / 8], ((n - 1) % 8) as u8);
}

/// Law: in an image that ends in the six dip switch bytes, setting switch
/// `n` (1 to 48) to `on` changes only bit `(n - 1) % 8` of byte
/// `len - 6 + (n - 1) / 8`, which then is `on`; the image keeps its length.
pub proof fn lemma_set_dip_switch_is_bit(data: Seq<u8>, n: usize, on: bool)
    requires
        1 <= n <= 48,
        data.len() >= 6,
    ensures
        spec_set_dip_switch(data, n, on) matches Ok(d) && {
            let p = data.len() - 6 + (n - 1) / 8;
            let b = ((n - 1) % 8) as u8;
            &&& d.len() == data.len()
            &&& forall|i: int| 0 <= i < data.len() && i != p ==> d[i] == data[i]
            &&& ((d[p] >> b) & 1u8 == 1u8) == on
            &&& forall|k: u8| k < 8 && k != b ==> (d[p] >> k) & 1u8 == (data[p] >> k) & 1u8
        },
{
    let p = data.len() - 6 + (n - 1) / 8;
    let b = ((n - 1) % 8) as u8;
    let x = data[p];
    let d = spec_set_dip_switch(data, n, on)->Ok_0;
    assert(d[p] == with_switch(x, 1u8 << b, on));
    lemma_switch_bits(x, b, b);
    lemma_mask_bit(d[p], b);
    assert forall|k: u8| k < 8 && k != b implies (d[p] >> k) & 1u8 == (data[p] >> k) & 1u8 by {
        let y = d[p];
        if on {
            assert(y == x | (1u8 << b));
            assert((x | (1u8 << b)) >> k & 1u8 == (x >> k) & 1u8) by (bit_vector) requires k < 8, b < 8, k != b;
        } else {
            assert(y == x & !(1u8 << b));
            assert((x & !(1u8 << b)) >> k & 1u8 == (x >> k) & 1u8) by (bit_vector) requires k < 8, b < 8, k != b;
        }
    }
}

} // verus!
