//! The domain-independent output unit of preprocessing.
use vstd::prelude::*;
use crate::Identifiable;

verus! {

/// An exact feature value, `num / den`.
#[derive(Clone, Copy, Debug, PartialEq, Eq, Structural)]
pub struct Fraction {
    pub num: i128,
    pub den: i128,
}

impl Fraction {
    pub fn new(num: i128, den: i128) -> (r: Fraction)
        ensures
            r.num == num,
            r.den == den,
    {
        Fraction { num, den }
    }

    /// Whether the value lies in `[0, 1]` with a positive denominator.
    pub open spec fn in_unit_range(self) -> bool {
        0 <= self.num <= self.den && self.den >= 1
    }
}

/// An identifier, a fixed-length feature vector and an optional label.
#[derive(Debug, Clone)]
pub struct Sample {
    pub id: String,
    pub features: Vec<Fraction>,
    pub label: Option<String>,
}

impl Sample {
    pub fn new(id: String, features: Vec<Fraction>, label: Option<String>) -> (r: Sample)
        ensures
            r.id == id,
            r.features == features,
            r.label == label,
    {
        Sample { id, features, label }
    }
}

impl Identifiable for Sample {
    open spec fn id_view(&self) -> Seq<char> {
        self.id@
    }

    fn id(&self) -> (r: &str) {
        self.id.as_str()
    }
}

} // verus!
