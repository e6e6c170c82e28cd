//! One step of the ingestion loop: what a raw key transition does to the
//! gram table.
use vstd::prelude::*;
use crate::grams::{CountOverflow, Log, pushed, saturated};

verus! {

/// The direction of a key transition.
#[derive(Clone, Copy, Debug, PartialEq, Eq, Structural)]
pub enum Transition {
    Release,
    Press,
    /// An auto-repeated press while the key is held.
    Repeat,
}

impl Transition {
    /// Whether the transition goes to the decoder: every one but a repeat,
    /// which echoes a press that was already counted.
    pub fn reaches_decoder(self) -> (r: bool)
        ensures
            r == (self != Transition::Repeat),
    {
        self != Transition::Repeat
    }

    /// The transition that an input event value stands for: 0 is a
    /// release, 1 a press, 2 a repeat; other values stand for none.
    pub fn from_value(v: i32) -> (r: Option<Transition>)
        ensures
            v == 0 <==> r == Some(Transition::Release),
            v == 1 <==> r == Some(Transition::Press),
            v == 2 <==> r == Some(Transition::Repeat),
            r is None <==> !(0 <= v <= 2),
    {
        if v == 0 {
            Some(Transition::Release)
        } else if v == 1 {
            Some(Transition::Press)
        } else if v == 2 {
            Some(Transition::Repeat)
        } else {
            None
        }
    }
}

/// The decoder keycode for a hardware key code: the hardware code plus
/// eight, wrapping at 16 bits.
pub fn decoder_keycode(code: u16) -> (r: u32)
    ensures
        r == (code + 8) % 0x10000,
{
    code.wrapping_add(8) as u32
}

/// Turns key transitions into characters, keeping its own layout state
/// (modifiers, dead keys) across calls.
pub trait Decoder {
    /// Records the transition of `key` and returns the character that a
    /// press produces, if any.
    fn translate(&mut self, key: u32, t: Transition) -> Option<char>;
}

/// Counts what the decoder made of a transition: a character that a
/// press yields goes into `table` and is returned; anything else leaves
/// `table` as it is. A count that would overflow is reported and changes
/// nothing.
pub fn count_decoded(table: &mut Log, t: Transition, decoded: Option<char>) -> (r: Result<
    Option<char>,
    CountOverflow,
>)
    requires
        old(table).wf(),
    ensures
        final(table).wf(),
        (t == Transition::Press && decoded is Some) ==> {
            let c = decoded->Some_0;
            &&& (r is Err <==> (saturated(old(table).ones(), seq![c]) || saturated(
                old(table).twos(),
                seq![old(table).newer(), c],
            ) || saturated(old(table).threes(), seq![old(table).older(), old(table).newer(), c])))
            &&& (r is Ok ==> r == Ok::<Option<char>, CountOverflow>(Some(c)) && pushed(
                *old(table),
                c,
                *final(table),
            ))
            &&& (r is Err ==> *final(table) == *old(table))
        },
        !(t == Transition::Press && decoded is Some) ==> (r == Ok::<Option<char>, CountOverflow>(
            None,
        ) && *final(table) == *old(table)),
{
    match decoded {
        Some(c) => {
            if t == Transition::Press {
                match table.push(c) {
                    Ok(()) => Ok(Some(c)),
                    Err(e) => Err(e),
                }
            } else {
                Ok(None)
            }
        },
        None => Ok(None),
    }
}

/// Handles one key transition. A repeat is dropped before it reaches the
/// decoder. Any other transition goes to the decoder, and what it yields
/// is counted as `count_decoded` says.
pub fn handle_event<D: Decoder>(table: &mut Log, decoder: &mut D, key: u32, t: Transition) -> (r:
    Result<Option<char>, CountOverflow>)
    requires
        old(table).wf(),
    ensures
        final(table).wf(),
        t == Transition::Repeat ==> r == Ok::<Option<char>, CountOverflow>(None),
        t == Transition::Repeat ==> *final(decoder) == *old(decoder),
        t == Transition::Repeat ==> *final(table) == *old(table),
        match r {
            Ok(Some(c)) => t == Transition::Press && pushed(*old(table), c, *final(table)),
            Ok(None) => *final(table) == *old(table),
            Err(_) => t == Transition::Press && *final(table) == *old(table),
        },
{
    if !t.reaches_decoder() {
        return Ok(None);
    }
    let decoded = decoder.translate(key, t);
    count_decoded(table, t, decoded)
}

} // verus!
