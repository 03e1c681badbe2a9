//! Sina quote service: the K-line request URL.
use vstd::prelude::*;
use crate::text::{chars_of, decimal, push_str, string_from_range, u64_to_decimal};

verus! {

/// `s` with every trailing occurrence of `c` removed (`str::trim_end_matches`).
pub open spec fn strip_trailing(s: Seq<char>, c: char) -> Seq<char>
    decreases s.len(),
{
    if s.len() > 0 && s.last() == c {
        strip_trailing(s.drop_last(), c)
    } else {
        s
    }
}

/// The URL of a Sina `getKLineData` request.
pub open spec fn sina_url_spec(base: Seq<char>, symbol: Seq<char>, scale: nat, datalen: nat) -> Seq<char> {
    strip_trailing(base, '/') + "/CN_MarketDataService.getKLineData?symbol="@ + symbol
        + "&scale="@ + decimal(scale) + "&ma=no&datalen="@ + decimal(datalen)
}

/// `s` without its trailing slashes.
pub fn trim_trailing_slashes(s: &str) -> (t: String)
    ensures
        t@ == strip_trailing(s@, '/'),
{
    let cs = chars_of(s);
    let mut n: usize = cs.len();
    assert(cs@.take(n as int) =~= s@);
    while n > 0 && cs[n - 1] == '/'
        invariant
            n <= cs.len(),
            cs@ == s@,
            strip_trailing(cs@.take(n as int), '/') == strip_trailing(s@, '/'),
        decreases n,
    {
        assert(cs@.take(n as int).drop_last() =~= cs@.take(n - 1));
        n -= 1;
    }
    let head = string_from_range(cs.as_slice(), 0, n);
    assert(head@ =~= cs@.take(n as int));
    head
}

/// Builds the Sina `getKLineData` request URL; trailing slashes of the base are dropped.
pub fn sina_kline_url(base_url: &str, symbol: &str, scale: u32, datalen: u32) -> (url: String)
    ensures
        url@ == sina_url_spec(base_url@, symbol@, scale as nat, datalen as nat),
{
    let mut url = trim_trailing_slashes(base_url);
    push_str(&mut url, "/CN_MarketDataService.getKLineData?symbol=");
    push_str(&mut url, symbol);
    push_str(&mut url, "&scale=");
    let sc = u64_to_decimal(scale as u64);
    push_str(&mut url, sc.as_str());
    push_str(&mut url, "&ma=no&datalen=");
    let dl = u64_to_decimal(datalen as u64);
    push_str(&mut url, dl.as_str());
    url
}

} // verus!
