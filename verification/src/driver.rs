use vstd::prelude::*;
use vstd::string::StringExecFns;
use crate::bignum::BigNum;
use crate::dec::Dec;
use crate::solve::{AntiResult, Parameters, alpha_ok, parameters_valid, poly_hash};

verus! {

/// The largest string length the doubling search tries.
pub const MAXIMUM_LENGTH: usize = 256;

/// Every pair holds a modulus of at least two and a canonical residue as
/// base.
pub open spec fn good_pairs(pairs: Seq<(i64, i64)>) -> bool {
    forall|i: int|
        0 <= i < pairs.len() ==> (#[trigger] pairs[i]).0 >= 2 && 0 <= pairs[i].1 && pairs[i].1
            < pairs[i].0
}

/// One collision search at a fixed string length, with the driver's default
/// settings: lambda 100000, delta 0.99, eta 0.51, ten digits of precision,
/// and no effective timeout. A returned pair is a verified collision of that
/// length.
pub fn anti_hash_with_length(modulo_base: &Vec<(i64, i64)>, length: usize) -> (r: Option<
    (String, String),
>)
    requires
        length >= 1,
        modulo_base@.len() >= 1,
        modulo_base@.len() <= usize::MAX - length,
        good_pairs(modulo_base@),
    ensures
        r matches Some(ab) ==> {
            &&& ab.0@.len() == length as int
            &&& ab.1@.len() == length as int
            &&& ab.0@ != ab.1@
            &&& alpha_ok(ab.0@)
            &&& alpha_ok(ab.1@)
            &&& forall|i: int|
                0 <= i < modulo_base@.len() ==> poly_hash(
                    ab.0@,
                    modulo_base@[i].1 as int,
                    (#[trigger] modulo_base@[i]).0 as int,
                ) == poly_hash(ab.1@, modulo_base@[i].1 as int, modulo_base@[i].0 as int)
        },
{
    let k = modulo_base.len();
    let mut modulo: Vec<BigNum> = Vec::new();
    let mut base: Vec<BigNum> = Vec::new();
    let mut i: usize = 0;
    while i < k
        invariant
            0 <= i <= k,
            k == modulo_base@.len(),
            good_pairs(modulo_base@),
            modulo@.len() == i,
            base@.len() == i,
            forall|t: int|
                0 <= t < i ==> (#[trigger] modulo@[t])@ == modulo_base@[t].0 as int,
            forall|t: int| 0 <= t < i ==> (#[trigger] base@[t])@ == modulo_base@[t].1 as int,
        decreases k - i,
    {
        modulo.push(BigNum::from_i64(modulo_base[i].0));
        base.push(BigNum::from_i64(modulo_base[i].1));
        i += 1;
    }
    let params = Parameters {
        length,
        modulo,
        base,
        lambda: BigNum::from_u64(100000),
        delta: Dec { man: BigNum::from_i64(99), scale: 2 },
        eta: Dec { man: BigNum::from_i64(51), scale: 2 },
        precision: 10,
        timeout_millis: u64::MAX,
    };
    // The bundle is built from checked pairs and fixed defaults, so this
    // gate never fires; it discharges the search's caller contract.
    if !parameters_valid(&params) {
        return None;
    }
    match crate::solve::anti_hash(params) {
        AntiResult::Found(_, a, b) => {
            proof {
                assert forall|i: int| 0 <= i < modulo_base@.len() implies poly_hash(
                    a@,
                    modulo_base@[i].1 as int,
                    (#[trigger] modulo_base@[i]).0 as int,
                ) == poly_hash(b@, modulo_base@[i].1 as int, modulo_base@[i].0 as int) by {
                    assert(params.modulo@[i]@ == modulo_base@[i].0 as int);
                    assert(params.base@[i]@ == modulo_base@[i].1 as int);
                }
            }
            Some((a, b))
        },
        _ => None,
    }
}

/// The outer search: doubles the string length from one up to the maximum
/// until a collision appears. A returned pair is a verified collision under
/// every given modulus-base pair.
pub fn anti_hash(modulo_base: Vec<(i64, i64)>) -> (r: Result<(String, String), String>)
    requires
        modulo_base@.len() >= 1,
        modulo_base@.len() <= usize::MAX - MAXIMUM_LENGTH,
        good_pairs(modulo_base@),
    ensures
        r matches Ok(ab) ==> {
            &&& ab.0@.len() == ab.1@.len()
            &&& 1 <= ab.0@.len() <= MAXIMUM_LENGTH
            &&& ab.0@ != ab.1@
            &&& alpha_ok(ab.0@)
            &&& alpha_ok(ab.1@)
            &&& forall|i: int|
                0 <= i < modulo_base@.len() ==> poly_hash(
                    ab.0@,
                    modulo_base@[i].1 as int,
                    (#[trigger] modulo_base@[i]).0 as int,
                ) == poly_hash(ab.1@, modulo_base@[i].1 as int, modulo_base@[i].0 as int)
        },
{
    let mut length: usize = 1;
    while length <= MAXIMUM_LENGTH
        invariant
            1 <= length,
            modulo_base@.len() >= 1,
            modulo_base@.len() <= usize::MAX - MAXIMUM_LENGTH,
            length <= 2 * MAXIMUM_LENGTH,
            good_pairs(modulo_base@),
        decreases 2 * MAXIMUM_LENGTH - length,
    {
        if let Some(result) = anti_hash_with_length(&modulo_base, length) {
            return Ok(result);
        }
        length *= 2;
    }
    Err(String::from_str("Not found."))
}

} // verus!
