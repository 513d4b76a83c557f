//! The memory of the device that runs the voice activity model.

use crate::text;
use crate::vad::XPAD_LEN;
use vstd::prelude::*;

verus! {

/// A buffer on the device: input, intermediate results, output and state, then the
/// weights of the model.
#[derive(Clone, Copy, PartialEq, Eq, Structural, Debug)]
pub enum Slot {
    /// The padded input window.
    Xpad,
    /// The spectrogram.
    SpecG,
    /// The output of the first convolution.
    E0G,
    /// The output of the second convolution.
    E1G,
    /// The output of the third convolution.
    E2G,
    /// The features that enter the recurrent cell.
    FeatG,
    /// The gates of the recurrent cell.
    ZG,
    /// The probability of speech.
    Prob,
    /// The hidden state.
    H,
    /// The cell state.
    C,
    Basis,
    Ew0,
    Ew1,
    Ew2,
    Ew3,
    Eb0,
    Eb1,
    Eb2,
    Eb3,
    Wl,
    Rl,
    Lb,
    Fcw,
    Fcb,
}

/// How many single-precision numbers a buffer holds; of a weight, 0, since its size
/// is that of its data.
pub open spec fn nelems(s: Slot) -> nat {
    match s {
        Slot::Xpad => XPAD_LEN as nat,
        Slot::SpecG => 129 * 6,
        Slot::E0G => 128 * 6,
        Slot::E1G => 64 * 4,
        Slot::E2G => 64 * 3,
        Slot::FeatG => 128,
        Slot::ZG => 512,
        Slot::Prob => 1,
        Slot::H => 128,
        Slot::C => 128,
        _ => 0,
    }
}

/// How many single-precision numbers a buffer holds, or 0 for a weight.
pub fn slot_nelems(s: Slot) -> (n: usize)
    ensures
        n == nelems(s),
{
    match s {
        Slot::Xpad => XPAD_LEN,
        Slot::SpecG => 129 * 6,
        Slot::E0G => 128 * 6,
        Slot::E1G => 64 * 4,
        Slot::E2G => 64 * 3,
        Slot::FeatG => 128,
        Slot::ZG => 512,
        Slot::Prob => 1,
        Slot::H => 128,
        Slot::C => 128,
        _ => 0,
    }
}

/// Where the address of a buffer is kept.
pub open spec fn index_of(s: Slot) -> int {
    match s {
        Slot::Xpad => 0,
        Slot::SpecG => 1,
        Slot::E0G => 2,
        Slot::E1G => 3,
        Slot::E2G => 4,
        Slot::FeatG => 5,
        Slot::ZG => 6,
        Slot::Prob => 7,
        Slot::H => 8,
        Slot::C => 9,
        Slot::Basis => 10,
        Slot::Ew0 => 11,
        Slot::Ew1 => 12,
        Slot::Ew2 => 13,
        Slot::Ew3 => 14,
        Slot::Eb0 => 15,
        Slot::Eb1 => 16,
        Slot::Eb2 => 17,
        Slot::Eb3 => 18,
        Slot::Wl => 19,
        Slot::Rl => 20,
        Slot::Lb => 21,
        Slot::Fcw => 22,
        Slot::Fcb => 23,
    }
}

/// Where the address of a buffer is kept.
pub fn slot_index(s: Slot) -> (i: usize)
    ensures
        i == index_of(s),
{
    match s {
        Slot::Xpad => 0,
        Slot::SpecG => 1,
        Slot::E0G => 2,
        Slot::E1G => 3,
        Slot::E2G => 4,
        Slot::FeatG => 5,
        Slot::ZG => 6,
        Slot::Prob => 7,
        Slot::H => 8,
        Slot::C => 9,
        Slot::Basis => 10,
        Slot::Ew0 => 11,
        Slot::Ew1 => 12,
        Slot::Ew2 => 13,
        Slot::Ew3 => 14,
        Slot::Eb0 => 15,
        Slot::Eb1 => 16,
        Slot::Eb2 => 17,
        Slot::Eb3 => 18,
        Slot::Wl => 19,
        Slot::Rl => 20,
        Slot::Lb => 21,
        Slot::Fcw => 22,
        Slot::Fcb => 23,
    }
}

/// No two buffers share a place.
pub proof fn law_slots_distinct(a: Slot, b: Slot)
    requires
        index_of(a) == index_of(b),
    ensures
        a == b,
{
}

/// Whether a table of `n` addresses has room for every buffer, and none to spare.
pub open spec fn fits(slots: Seq<Slot>, n: int) -> bool {
    &&& forall|i: int| 0 <= i < slots.len() ==> index_of(#[trigger] slots[i]) < n
    &&& n == 0 || exists|i: int| 0 <= i < slots.len() && index_of(#[trigger] slots[i]) == n - 1
}

/// How many addresses a table for the given buffers holds.
pub fn slot_count(slots: &Vec<Slot>) -> (n: usize)
    ensures
        fits(slots@, n as int),
{
    let mut n: usize = 0;
    let mut i: usize = 0;
    while i < slots.len()
        invariant
            i <= slots@.len(),
            fits(slots@.take(i as int), n as int),
        decreases slots.len() - i,
    {
        let at = slot_index(slots[i]);
        let ghost before = slots@.take(i as int);
        let ghost after = slots@.take(i + 1);
        assert(after =~= before.push(slots@[i as int]));
        assert(after[i as int] == slots@[i as int]);
        let ghost earlier = n as int;
        if at >= n {
            n = at + 1;
        }
        proof {
            if n == earlier && n != 0 {
                let k = choose|k: int|
                    0 <= k < before.len() && index_of(#[trigger] before[k]) == n - 1;
                assert(after[k] == before[k]);
            }
            assert forall|k: int| 0 <= k < after.len() implies index_of(#[trigger] after[k]) < n by {
                if k < i {
                    assert(after[k] == before[k]);
                }
            }
        }
        i = i + 1;
    }
    assert(slots@.take(i as int) =~= slots@);
    n
}

/// The buffers that the device fills, all zero at first; the input is not among
/// them, since it lies in the memory of the host.
pub open spec fn scratch() -> Seq<Slot> {
    seq![
        Slot::SpecG,
        Slot::E0G,
        Slot::E1G,
        Slot::E2G,
        Slot::FeatG,
        Slot::ZG,
        Slot::Prob,
        Slot::H,
        Slot::C,
    ]
}

/// The buffers that the device fills.
pub fn scratch_slots() -> (slots: Vec<Slot>)
    ensures
        slots@ == scratch(),
{
    let mut slots: Vec<Slot> = Vec::new();
    slots.push(Slot::SpecG);
    slots.push(Slot::E0G);
    slots.push(Slot::E1G);
    slots.push(Slot::E2G);
    slots.push(Slot::FeatG);
    slots.push(Slot::ZG);
    slots.push(Slot::Prob);
    slots.push(Slot::H);
    slots.push(Slot::C);
    assert(slots@ =~= scratch());
    slots
}

/// The buffers that hold the state of the model between windows.
pub open spec fn state() -> Seq<Slot> {
    seq![Slot::H, Slot::C]
}

/// The buffers that hold the state of the model between windows.
pub fn state_slots() -> (slots: Vec<Slot>)
    ensures
        slots@ == state(),
{
    let mut slots: Vec<Slot> = Vec::new();
    slots.push(Slot::H);
    slots.push(Slot::C);
    assert(slots@ =~= state());
    slots
}

/// The buffers of the model are its input, those that the device fills, and its
/// weights, which alone have no size of their own; the state is among those that
/// the device fills.
pub proof fn law_every_buffer_has_a_size(s: Slot)
    ensures
        nelems(s) > 0 <==> s == Slot::Xpad || scratch().contains(s),
        state().contains(s) ==> scratch().contains(s),
{
    let all = scratch();
    assert(all[0] == Slot::SpecG && all[1] == Slot::E0G && all[2] == Slot::E1G);
    assert(all[3] == Slot::E2G && all[4] == Slot::FeatG && all[5] == Slot::ZG);
    assert(all[6] == Slot::Prob && all[7] == Slot::H && all[8] == Slot::C);
}

/// The addresses of the given buffers.
pub open spec fn addresses(slots: Seq<Slot>, table: Seq<u64>) -> Seq<u64> {
    slots.map_values(|s: Slot| table[index_of(s)])
}

/// The addresses that a kernel takes, in the order of its parameters.
pub fn kernel_addresses(slots: &Vec<Slot>, table: &Vec<u64>) -> (out: Vec<u64>)
    requires
        forall|i: int| 0 <= i < slots@.len() ==> index_of(#[trigger] slots@[i]) < table@.len(),
    ensures
        out@ == addresses(slots@, table@),
{
    let mut out: Vec<u64> = Vec::new();
    let mut i: usize = 0;
    while i < slots.len()
        invariant
            forall|k: int| 0 <= k < slots@.len() ==> index_of(#[trigger] slots@[k]) < table@.len(),
            i <= slots@.len(),
            out@ =~= addresses(slots@.take(i as int), table@),
        decreases slots.len() - i,
    {
        assert(index_of(slots@[i as int]) < table@.len());
        out.push(table[slot_index(slots[i])]);
        i = i + 1;
    }
    assert(slots@.take(i as int) =~= slots@);
    out
}

/// Whether an address is one that the device gave out: not empty, and not that of
/// the input, which the host gave out.
pub open spec fn owned(address: u64, input: u64) -> bool {
    address != 0 && address != input
}

/// The addresses to give back to the device.
pub fn owned_addresses(table: &Vec<u64>, input: u64) -> (out: Vec<u64>)
    ensures
        out@ == table@.filter(|a: u64| owned(a, input)),
{
    let ghost keep = |a: u64| owned(a, input);
    let mut out: Vec<u64> = Vec::new();
    let mut i: usize = 0;
    while i < table.len()
        invariant
            keep == (|a: u64| owned(a, input)),
            i <= table@.len(),
            out@ == table@.take(i as int).filter(keep),
        decreases table.len() - i,
    {
        proof {
            reveal(Seq::filter);
            assert(table@.take(i + 1).drop_last() =~= table@.take(i as int));
        }
        if table[i] != 0 && table[i] != input {
            out.push(table[i]);
        }
        i = i + 1;
    }
    assert(table@.take(i as int) =~= table@);
    out
}

/// What to report when the driver fails.
pub open spec fn driver_report(code: i32, what: Seq<char>) -> Seq<char> {
    "CUDA driver error "@ + text::signed_decimal(code as int) + " in "@ + what
}

/// Whether the driver did what it was asked, by the number that it returned.
pub fn driver_result(code: i32, what: &str) -> (result: Result<(), String>)
    ensures
        match result {
            Ok(_) => code == 0,
            Err(message) => code != 0 && message@ == driver_report(code, what@),
        },
{
    if code == 0 {
        Ok(())
    } else {
        let mut message = "CUDA driver error ".to_owned();
        message.append(text::to_signed_decimal(code).as_str());
        message.append(" in ");
        message.append(what);
        Err(message)
    }
}

} // verus!
