//! Rendering of fixed-point values and of statistics as text.

use vstd::prelude::*;
use crate::aggregate::{avg_tenths, Aggregate, Summary};
use crate::aggregator::Stats;
use crate::order::strictly_sorted;

verus! {

/// The decimal digits of `n`, without leading zeros (`0` is one digit).
pub open spec fn decimal(n: nat) -> Seq<u8>
    decreases n,
{
    if n < 10 {
        seq![(48 + n) as u8]
    } else {
        decimal(n / 10).push((48 + n % 10) as u8)
    }
}

pub open spec fn abs_int(v: int) -> nat {
    if v < 0 {
        (-v) as nat
    } else {
        v as nat
    }
}

/// A value in tenths written with exactly one fractional digit: `-35` is `-3.5`.
pub open spec fn fmt_tenths(v: int) -> Seq<u8> {
    let a = abs_int(v);
    let sign: Seq<u8> = if v < 0 {
        seq![45u8]
    } else {
        seq![]
    };
    sign + decimal(a / 10) + seq![46u8, (48 + a % 10) as u8]
}

/// `min/avg/max`, each with one fractional digit.
pub open spec fn summary_text(s: Summary) -> Seq<u8> {
    fmt_tenths(s.min) + seq![47u8] + fmt_tenths(avg_tenths(s)) + seq![47u8] + fmt_tenths(s.max)
}

/// `key=min/avg/max`.
pub open spec fn entry_text(m: Stats, k: Seq<u8>) -> Seq<u8> {
    k + seq![61u8] + summary_text(m[k])
}

/// The entries of the keys `ks`, in that order, separated by `, `.
pub open spec fn join_entries(m: Stats, ks: Seq<Seq<u8>>) -> Seq<u8>
    decreases ks.len(),
{
    if ks.len() == 0 {
        seq![]
    } else if ks.len() == 1 {
        entry_text(m, ks[0])
    } else {
        join_entries(m, ks.drop_last()) + seq![44u8, 32u8] + entry_text(m, ks.last())
    }
}

/// The keys of `m` in ascending byte order.
pub open spec fn sorted_keys(m: Stats) -> Seq<Seq<u8>> {
    choose|s: Seq<Seq<u8>>|
        strictly_sorted(s) && forall|k: Seq<u8>| #[trigger] s.contains(k) <==> m.contains_key(k)
}

/// `{k1=min/avg/max, k2=min/avg/max}` and a newline, keys in ascending byte order.
pub open spec fn render(m: Stats) -> Seq<u8> {
    seq![123u8] + join_entries(m, sorted_keys(m)) + seq![125u8, 10u8]
}

/// Appends bytes.
pub fn push_bytes(out: &mut Vec<u8>, b: &[u8])
    ensures
        final(out)@ == old(out)@ + b@,
{
    let ghost start = out@;
    let mut i: usize = 0;
    while i < b.len()
        invariant
            i <= b@.len(),
            out@ == start + b@.take(i as int),
        decreases b.len() - i,
    {
        out.push(b[i]);
        assert(b@.take(i as int + 1) =~= b@.take(i as int).push(b@[i as int]));
        i = i + 1;
    }
    assert(b@.take(i as int) =~= b@);
}

/// Appends the decimal digits of `n`.
pub fn push_decimal(out: &mut Vec<u8>, n: u64)
    ensures
        final(out)@ == old(out)@ + decimal(n as nat),
    decreases n,
{
    if n >= 10 {
        push_decimal(out, n / 10);
    }
    out.push((48 + n % 10) as u8);
    assert(decimal(n as nat) == if n < 10 {
        seq![(48 + n) as u8]
    } else {
        decimal((n / 10) as nat).push((48 + n % 10) as u8)
    });
}

/// Appends a value in tenths with one fractional digit.
pub fn push_tenths(out: &mut Vec<u8>, v: i32)
    ensures
        final(out)@ == old(out)@ + fmt_tenths(v as int),
{
    let a: u64 = if v < 0 {
        (-(v as i64)) as u64
    } else {
        v as u64
    };
    let ghost start = out@;
    if v < 0 {
        out.push(45);
    }
    push_decimal(out, a / 10);
    out.push(46);
    out.push((48 + a % 10) as u8);
    let ghost sign: Seq<u8> = if v < 0 {
        seq![45u8]
    } else {
        seq![]
    };
    assert(out@ == start + sign + decimal((a / 10) as nat) + seq![46u8, (48 + a % 10) as u8]);
}

impl Aggregate {
    /// Appends `min/avg/max`, each with one fractional digit.
    pub fn write_to(&self, out: &mut Vec<u8>)
        requires
            self.wf(),
        ensures
            final(out)@ == old(out)@ + summary_text(self@),
    {
        let ghost start = out@;
        push_tenths(out, self.min);
        out.push(47);
        push_tenths(out, self.avg());
        out.push(47);
        push_tenths(out, self.max);
        assert(out@ == start + summary_text(self@));
    }

    /// `min/avg/max`, each with one fractional digit, e.g. `20.0/22.5/25.0`.
    pub fn display(&self) -> (r: Vec<u8>)
        requires
            self.wf(),
        ensures
            r@ == summary_text(self@),
    {
        let mut out: Vec<u8> = Vec::new();
        self.write_to(&mut out);
        assert(out@ == Seq::<u8>::empty() + summary_text(self@));
        out
    }
}

} // verus!
