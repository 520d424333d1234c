use vstd::prelude::*;

verus! {

/// A single ternary digit: 0, 1 or 2.
#[derive(Clone, Copy, PartialEq, Eq, Structural, PartialOrd, Ord, Debug)]
pub struct Trit(u8);

impl View for Trit {
    type V = nat;

    closed spec fn view(&self) -> nat {
        self.0 as nat
    }
}

/// The digit whose value is `x`, for `x < 3`.
pub closed spec fn trit_of(x: u8) -> Trit {
    Trit(x)
}

pub broadcast proof fn lemma_trit_of(x: u8)
    ensures
        #[trigger] trit_of(x)@ == x as nat,
{
}

impl Trit {
    #[verifier::type_invariant]
    spec fn in_range(self) -> bool {
        self.0 < 3
    }

    /// The digit 0.
    pub fn zero() -> (r: Trit)
        ensures
            r@ == 0,
    {
        Trit(0)
    }

    /// The digit 1.
    pub fn one() -> (r: Trit)
        ensures
            r@ == 1,
    {
        Trit(1)
    }

    /// The digit 2.
    pub fn two() -> (r: Trit)
        ensures
            r@ == 2,
    {
        Trit(2)
    }

    /// The digit whose value is `x`.
    pub fn from_value(x: u8) -> (r: Trit)
        requires
            x < 3,
        ensures
            r@ == x as nat,
    {
        Trit(x)
    }

    /// The digit's value as a byte.
    pub fn value(self) -> (r: u8)
        ensures
            r as nat == self@,
            r < 3,
    {
        proof {
            use_type_invariant(&self);
        }
        self.0
    }
}

} // verus!

verus! {

impl Default for Trit {
    fn default() -> (r: Trit)
        ensures
            r@ == 0,
    {
        Trit(0)
    }
}

impl TryFrom<u8> for Trit {
    type Error = ();

    fn try_from(x: u8) -> (r: Result<Trit, ()>) {
        if x < 3 {
            Ok(Trit(x))
        } else {
            Err(())
        }
    }
}

impl vstd::std_specs::convert::TryFromSpecImpl<u8> for Trit {
    open spec fn obeys_try_from_spec() -> bool {
        true
    }

    open spec fn try_from_spec(x: u8) -> Result<Trit, ()> {
        if x < 3 {
            Ok(trit_of(x))
        } else {
            Err(())
        }
    }
}

impl From<Trit> for u8 {
    fn from(x: Trit) -> (r: u8) {
        x.value()
    }
}

impl vstd::std_specs::convert::FromSpecImpl<Trit> for u8 {
    open spec fn obeys_from_spec() -> bool {
        true
    }

    open spec fn from_spec(x: Trit) -> u8 {
        x@ as u8
    }
}

} // verus!
