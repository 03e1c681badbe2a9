//! Tencent quote service: the adjusted daily K-line request URL.
use vstd::prelude::*;
use crate::text::{decimal, push_str, u64_to_decimal};

verus! {

/// Endpoint of the Tencent `fqkline` service.
pub const TENCENT_FQKLINE_BASE: &'static str = "https://web.ifzq.gtimg.cn/appstock/app/fqkline/get";

/// The URL of a Tencent `fqkline` request.
pub open spec fn tencent_url_spec(
    base: Seq<char>,
    symbol: Seq<char>,
    start: Seq<char>,
    end: Seq<char>,
    count: nat,
    adjust: Seq<char>,
) -> Seq<char> {
    base + "?param="@ + symbol + ","@ + "day,"@ + start + ","@ + end + ","@ + decimal(count) + ","@
        + adjust
}

/// Builds the Tencent `fqkline` request URL (`adjust` is `"qfq"` or empty).
pub fn tencent_fqkline_url(
    base_url: &str,
    symbol: &str,
    start: &str,
    end: &str,
    count: u32,
    adjust: &str,
) -> (url: String)
    ensures
        url@ == tencent_url_spec(base_url@, symbol@, start@, end@, count as nat, adjust@),
{
    let mut url = String::from_str(base_url);
    push_str(&mut url, "?param=");
    push_str(&mut url, symbol);
    push_str(&mut url, ",");
    push_str(&mut url, "day,");
    push_str(&mut url, start);
    push_str(&mut url, ",");
    push_str(&mut url, end);
    push_str(&mut url, ",");
    let c = u64_to_decimal(count as u64);
    push_str(&mut url, c.as_str());
    push_str(&mut url, ",");
    push_str(&mut url, adjust);
    url
}

} // verus!
