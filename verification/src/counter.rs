//! A counter: the simplest state that operations can be journalled for.

use vstd::prelude::*;
use crate::endian::{
    be_bytes, be_value, get_u64, lemma_be_bytes_len, lemma_be_value_bound,
    lemma_be_value_of_bytes, lemma_radix_pow_values, put_u64,
};
use crate::journal::StateOp;
use crate::wire::WireOp;

verus! {

/// Adds to or takes from a signed 64-bit counter.
#[derive(Clone, Copy, Debug, PartialEq, Eq, Structural)]
pub enum CounterOp {
    /// Add the amount to the counter.
    Increment(i64),
    /// Take the amount from the counter.
    Decrement(i64),
}

impl CounterOp {
    /// The operation that adds `x`.
    pub fn inc(x: i64) -> (op: Self)
        ensures
            op == CounterOp::Increment(x),
    {
        CounterOp::Increment(x)
    }

    /// The operation that takes `x` away.
    pub fn dec(x: i64) -> (op: Self)
        ensures
            op == CounterOp::Decrement(x),
    {
        CounterOp::Decrement(x)
    }

    /// The counter after the operation, as a number without bounds.
    pub open spec fn target(&self, state: i64) -> int {
        match *self {
            CounterOp::Increment(x) => state + x,
            CounterOp::Decrement(x) => state - x,
        }
    }
}

impl StateOp for CounterOp {
    type State = i64;

    /// The operation applies where the result is a 64-bit number.
    open spec fn applied(&self, state: i64) -> Option<i64> {
        if i64::MIN <= self.target(state) <= i64::MAX {
            Some(self.target(state) as i64)
        } else {
            None
        }
    }

    /// Where the operation does not apply, the counter is left as it was.
    fn apply(&self, state: &mut i64) -> (r: Result<(), ()>)
        ensures
            r is Err ==> *final(state) == *old(state),
    {
        let next = match *self {
            CounterOp::Increment(x) => state.checked_add(x),
            CounterOp::Decrement(x) => state.checked_sub(x),
        };
        match next {
            Some(value) => {
                *state = value;
                Ok(())
            },
            None => Err(()),
        }
    }
}

/// The byte that stands for `Increment`.
pub const TAG_INCREMENT: u8 = 0;

/// The byte that stands for `Decrement`.
pub const TAG_DECREMENT: u8 = 1;

/// The distance of an amount from the least one: the number that is sent.
pub open spec fn biased(amount: i64) -> nat {
    (amount - i64::MIN) as nat
}

impl CounterOp {
    /// The amount that is added or taken.
    pub open spec fn amount(&self) -> i64 {
        match *self {
            CounterOp::Increment(x) => x,
            CounterOp::Decrement(x) => x,
        }
    }

    /// The byte that stands for the kind of operation.
    pub open spec fn tag(&self) -> u8 {
        match *self {
            CounterOp::Increment(_) => TAG_INCREMENT,
            CounterOp::Decrement(_) => TAG_DECREMENT,
        }
    }
}

/// Nine bytes: the kind, then the amount's distance from the least amount
/// in eight bytes, most significant first.
impl WireOp for CounterOp {
    open spec fn encoded(&self) -> Seq<u8> {
        seq![self.tag()] + be_bytes(biased(self.amount()), 8)
    }

    open spec fn decoded(bytes: Seq<u8>) -> Option<Self> {
        if bytes.len() != 9 {
            None
        } else {
            let amount = (be_value(bytes.subrange(1, 9)) + i64::MIN) as i64;
            if bytes[0] == TAG_INCREMENT {
                Some(CounterOp::Increment(amount))
            } else if bytes[0] == TAG_DECREMENT {
                Some(CounterOp::Decrement(amount))
            } else {
                None
            }
        }
    }

    proof fn lemma_round_trip(&self) {
        let bytes = self.encoded();
        lemma_radix_pow_values();
        lemma_be_bytes_len(biased(self.amount()), 8);
        lemma_be_value_of_bytes(biased(self.amount()), 8);
        assert(bytes.subrange(1, 9) =~= be_bytes(biased(self.amount()), 8));
    }

    fn encode_op(&self, out: &mut Vec<u8>) {
        let (tag, amount) = match *self {
            CounterOp::Increment(x) => (TAG_INCREMENT, x),
            CounterOp::Decrement(x) => (TAG_DECREMENT, x),
        };
        out.push(tag);
        let distance: u64 = if amount >= 0 {
            amount as u64 + 0x8000_0000_0000_0000
        } else {
            (amount + i64::MAX + 1) as u64
        };
        put_u64(out, distance);
        assert(out@ =~= old(out)@ + self.encoded());
    }

    fn decode_op(bytes: &[u8]) -> (op: Option<Self>) {
        if bytes.len() != 9 {
            return None;
        }
        let distance = get_u64(bytes, 1);
        proof {
            lemma_radix_pow_values();
            lemma_be_value_bound(bytes@.subrange(1, 9));
        }
        let amount: i64 = if distance >= 0x8000_0000_0000_0000 {
            (distance - 0x8000_0000_0000_0000) as i64
        } else {
            distance as i64 - i64::MAX - 1
        };
        if bytes[0] == TAG_INCREMENT {
            Some(CounterOp::Increment(amount))
        } else if bytes[0] == TAG_DECREMENT {
            Some(CounterOp::Decrement(amount))
        } else {
            None
        }
    }
}

} // verus!
