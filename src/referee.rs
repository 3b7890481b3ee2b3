//! The values exchanged with the judge: the initial input, each turn's
//! input, and the output of a turn.

use crate::source::{ReadInput, Source};
use crate::table::{concat, joined};
use vstd::prelude::*;

verus! {

/// The input given once, before the first turn.
#[derive(Debug, Clone, PartialEq, Eq, Structural)]
pub struct InitInput {}

/// `key = value`.
pub open spec fn description_item(key: Seq<char>, value: Seq<char>) -> Seq<char> {
    key + seq![' ', '=', ' '] + value
}

impl InitInput {
    /// The names of the values that describe an input; none so far.
    pub fn description_keys() -> (r: Vec<&'static str>)
        ensures
            r@.len() == 0,
    {
        Vec::new()
    }

    /// The values that describe this input, in the order of the keys; none
    /// so far.
    pub fn description_values(&self) -> (r: Vec<String>)
        ensures
            r@.len() == 0,
    {
        Vec::new()
    }

    /// `key = value` for each key and its value, separated by commas.
    pub fn describe(&self) -> (r: String)
        ensures
            r@.len() == 0,
    {
        let keys = Self::description_keys();
        let values = self.description_values();
        let r = describe_all(&keys, &values);
        proof {
            assert(Seq::new(0, |i: int| description_item(Seq::<Seq<char>>::empty()[i], Seq::<Seq<char>>::empty()[i]))
                =~= Seq::<Seq<char>>::empty());
        }
        r
    }
}

/// `key = value` for each pair, up to the shorter list, joined by `, `.
pub open spec fn describe_pairs(keys: Seq<Seq<char>>, values: Seq<Seq<char>>) -> Seq<char> {
    let n = if keys.len() < values.len() {
        keys.len()
    } else {
        values.len()
    };
    joined(Seq::new(n, |i: int| description_item(keys[i], values[i])), seq![',', ' '])
}

fn describe_all(keys: &Vec<&'static str>, values: &Vec<String>) -> (r: String)
    ensures
        r@ == describe_pairs(keys@.map_values(|k: &'static str| k@), values@.map_values(|v: String| v@)),
{
    let ghost ks = keys@.map_values(|k: &'static str| k@);
    let ghost vs = values@.map_values(|v: String| v@);
    let n = if keys.len() < values.len() {
        keys.len()
    } else {
        values.len()
    };
    let ghost parts = Seq::new(n as nat, |i: int| description_item(ks[i], vs[i]));
    proof {
        reveal_strlit(" = ");
        reveal_strlit(", ");
        assert(" = "@ =~= seq![' ', '=', ' ']);
        assert(", "@ =~= seq![',', ' ']);
    }
    let mut r = String::new();
    let mut i: usize = 0;
    while i < n
        invariant
            n <= keys@.len(),
            n <= values@.len(),
            ks == keys@.map_values(|k: &'static str| k@),
            vs == values@.map_values(|v: String| v@),
            parts == Seq::new(n as nat, |i: int| description_item(ks[i], vs[i])),
            " = "@ == seq![' ', '=', ' '],
            ", "@ == seq![',', ' '],
            i <= n,
            r@ == joined(parts.subrange(0, i as int), seq![',', ' ']),
        decreases n - i,
    {
        let item = concat(keys[i], " = ");
        let item = concat(item.as_str(), values[i].as_str());
        proof {
            crate::table::lemma_joined_step(parts, seq![',', ' '], i as int);
        }
        if i > 0 {
            r = concat(r.as_str(), ", ");
            r = concat(r.as_str(), item.as_str());
        } else {
            r = item;
        }
        i = i + 1;
    }
    proof {
        assert(parts.subrange(0, i as int) =~= parts);
    }
    r
}

/// The whole input of a one-shot problem.
#[derive(Debug, Clone, PartialEq, Eq, Structural, Hash)]
pub struct Input {}

impl ReadInput for Input {
    fn read_from(source: &mut Source) -> (r: Input) {
        Input {}
    }
}

/// The input of one turn.
#[derive(Debug, Clone, PartialEq, Eq, Structural, Hash)]
pub struct TurnInput {}

impl ReadInput for InitInput {
    fn read_from(source: &mut Source) -> (r: InitInput) {
        InitInput {}
    }
}

impl ReadInput for TurnInput {
    fn read_from(source: &mut Source) -> (r: TurnInput) {
        TurnInput {}
    }
}

} // verus!
