use vstd::prelude::*;
use vstd::string::*;
use crate::text::{decimal, push_decimal, repeat};

verus! {

/// A duration of `secs` seconds and `millis` milliseconds in all, written as the seconds, a
/// point, the milliseconds past the second in three digits, and `s`.
pub open spec fn duration_text(secs: nat, millis: nat) -> Seq<char> {
    let ms = decimal(millis % 1000);
    decimal(secs) + seq!['.'] + repeat('0', (3 - ms.len()) as nat) + ms + seq!['s']
}

/// The decimal numeral of a number below a thousand has at most three digits.
proof fn lemma_decimal_len(n: nat)
    requires
        n < 1000,
    ensures
        1 <= decimal(n).len() <= 3,
{
    reveal_with_fuel(decimal, 3);
    if n >= 10 {
        if n / 10 >= 10 {
            assert(n / 10 / 10 < 10);
        }
    }
}

/// A duration, given by its whole seconds and its milliseconds in all, as `seconds.mmms`.
pub fn format_duration(secs: u64, millis: u128) -> (r: String)
    ensures
        r@ == duration_text(secs as nat, millis as nat),
{
    let ms = (millis % 1000) as u64;
    let mut out = String::new();
    push_decimal(&mut out, secs);
    proof {
        reveal_strlit(".");
        reveal_strlit("0");
        reveal_strlit("s");
        lemma_decimal_len(ms as nat);
    }
    out.append(".");
    let width: usize = if ms >= 100 {
        3
    } else if ms >= 10 {
        2
    } else {
        1
    };
    proof {
        reveal_with_fuel(decimal, 3);
        if ms >= 10 {
            assert(ms / 10 < 100);
        }
    }
    assert(width == decimal(ms as nat).len());
    let ghost head = out@;
    let mut k: usize = width;
    while k < 3
        invariant
            width <= k <= 3,
            out@ == head + repeat('0', (k - width) as nat),
            "0"@ == seq!['0'],
        decreases 3 - k,
    {
        out.append("0");
        k += 1;
    }
    push_decimal(&mut out, ms);
    out.append("s");
    proof {
        assert(out@ =~= duration_text(secs as nat, millis as nat));
    }
    out
}

/// The pairs that a descending sweep over the bounds gives: for the `i`-th window from the
/// top, `(bounds[k], bounds[k + 1])` with `k = bounds.len() - 2 - i`, each value from
/// `bounds[k + 1] - 1` down to `bounds[k]`, paired with `i`.
pub open spec fn window_items(bounds: Seq<u32>, i: int) -> Seq<(usize, u32)> {
    let k = bounds.len() - 2 - i;
    let lo = bounds[k] as int;
    let hi = bounds[k + 1] as int;
    Seq::new(if hi > lo { (hi - lo) as nat } else { 0 }, |j: int| (i as usize, (hi - 1 - j) as u32))
}

/// The first `m` windows' pairs, from the top window down.
pub open spec fn sweep(bounds: Seq<u32>, m: nat) -> Seq<(usize, u32)>
    decreases m,
{
    if m == 0 {
        seq![]
    } else {
        sweep(bounds, (m - 1) as nat) + window_items(bounds, m - 1)
    }
}

/// A descending sweep over consecutive bounds: from the top window down, each value of the
/// window from its upper bound (excluded) down to its lower bound, paired with the window's
/// number counted from the top.
pub fn stepped_iter(bounds: &[u32]) -> (r: Vec<(usize, u32)>)
    ensures
        bounds@.len() >= 2 ==> r@ == sweep(bounds@, (bounds@.len() - 1) as nat),
        bounds@.len() < 2 ==> r@ == Seq::<(usize, u32)>::empty(),
{
    let mut out: Vec<(usize, u32)> = Vec::new();
    let len = bounds.len();
    if len < 2 {
        return out;
    }
    let mut i: usize = 0;
    while i < len - 1
        invariant
            len == bounds@.len(),
            len >= 2,
            0 <= i <= len - 1,
            out@ == sweep(bounds@, i as nat),
        decreases len - 1 - i,
    {
        let k = len - 2 - i;
        let lo = bounds[k];
        let hi = bounds[k + 1];
        let ghost start = out@;
        let mut e = hi;
        while e > lo
            invariant
                lo <= e <= hi || (hi < lo && e == hi),
                len == bounds@.len(),
                len >= 2,
                0 <= i < len - 1,
                k == len - 2 - i,
                lo == bounds@[k as int],
                hi == bounds@[k as int + 1],
                out@ == start + window_items(bounds@, i as int).take(if hi > lo { hi - e } else { 0 }),
            decreases e,
        {
            e = e - 1;
            out.push((i, e));
            proof {
                assert(out@ =~= start + window_items(bounds@, i as int).take(hi - e));
            }
        }
        proof {
            assert(window_items(bounds@, i as int).take(if hi > lo { hi - e } else { 0 }) =~= window_items(bounds@, i as int));
        }
        i += 1;
    }
    out
}

} // verus!
