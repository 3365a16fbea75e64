use vstd::prelude::*;

verus! {

/// Number of key units per whole unit of price: book prices lie on a
/// fixed grid with a tick of one hundred-thousandth.
pub const PRICE_SCALE: u64 = 100000;

/// Encode a decimal price, given as whole units plus a fraction counted
/// in hundred-thousandths, into the integer key the book is indexed by.
/// Returns `None` when the fraction is off the grid or the key would not
/// fit in 64 bits.
pub fn price_to_key(whole: u64, frac: u64) -> (r: Option<u64>)
    ensures
        r.is_some() <==> frac < PRICE_SCALE && whole * PRICE_SCALE + frac <= u64::MAX,
        r.is_some() ==> r.unwrap() == whole * PRICE_SCALE + frac,
{
    if frac >= PRICE_SCALE {
        return None;
    }
    match whole.checked_mul(PRICE_SCALE) {
        Some(w) => w.checked_add(frac),
        None => {
            proof {
                assert(whole * PRICE_SCALE + frac > u64::MAX);
            }
            None
        },
    }
}

/// Decode a key back into whole units and the fraction in
/// hundred-thousandths.
pub fn key_to_price(key: u64) -> (r: (u64, u64))
    ensures
        r.0 == key / PRICE_SCALE,
        r.1 == key % PRICE_SCALE,
        r.1 < PRICE_SCALE,
        r.0 * PRICE_SCALE + r.1 == key,
{
    let whole = key / PRICE_SCALE;
    let frac = key % PRICE_SCALE;
    (whole, frac)
}

/// Round trip: a key built from on-grid parts decodes to the same parts.
pub proof fn lemma_price_key_round_trip(whole: u64, frac: u64)
    requires
        frac < PRICE_SCALE,
        whole * PRICE_SCALE + frac <= u64::MAX,
    ensures
        ((whole * PRICE_SCALE + frac) as u64) / PRICE_SCALE == whole,
        ((whole * PRICE_SCALE + frac) as u64) % PRICE_SCALE == frac,
{
    let key = (whole * PRICE_SCALE + frac) as u64;
    assert(key / PRICE_SCALE == whole && key % PRICE_SCALE == frac) by (nonlinear_arith)
        requires
            frac < PRICE_SCALE,
            key == whole * PRICE_SCALE + frac,
            PRICE_SCALE == 100000,
    ;
}

} // verus!
