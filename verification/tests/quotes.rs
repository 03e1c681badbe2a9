use rquant::data::sina::{sina_kline_url, trim_trailing_slashes};
use rquant::data::tencent::{tencent_fqkline_url, TENCENT_FQKLINE_BASE};
use rquant::eval::llm::prompt::chat_completions_url;

#[test]
fn builds_kline_url_trimming_trailing_slash() {
    let u = sina_kline_url("https://x/api/", "sh600000", 15, 1023);
    assert_eq!(
        u,
        "https://x/api/CN_MarketDataService.getKLineData?symbol=sh600000&scale=15&ma=no&datalen=1023"
    );
}

#[test]
fn url_shape() {
    let u = tencent_fqkline_url(TENCENT_FQKLINE_BASE, "sh601398", "2024-01-01", "2026-06-11", 500, "qfq");
    assert_eq!(u, "https://web.ifzq.gtimg.cn/appstock/app/fqkline/get?param=sh601398,day,2024-01-01,2026-06-11,500,qfq");
}

#[test]
fn kline_url_drops_every_trailing_slash() {
    let u = sina_kline_url("https://x///", "sz000001", 240, 0);
    assert_eq!(u, "https://x/CN_MarketDataService.getKLineData?symbol=sz000001&scale=240&ma=no&datalen=0");
}

#[test]
fn trailing_slashes_only_at_the_end() {
    assert_eq!(trim_trailing_slashes("/a/b//"), "/a/b");
    assert_eq!(trim_trailing_slashes("///"), "");
    assert_eq!(trim_trailing_slashes("abc"), "abc");
}

#[test]
fn tencent_url_unadjusted_has_empty_tail() {
    let u = tencent_fqkline_url("https://h/get", "sz000001", "2020-01-01", "2020-12-31", 4294967295, "");
    assert_eq!(u, "https://h/get?param=sz000001,day,2020-01-01,2020-12-31,4294967295,");
}

#[test]
fn chat_url_appends_endpoint() {
    assert_eq!(chat_completions_url("https://api.x/v1/"), "https://api.x/v1/chat/completions");
    assert_eq!(chat_completions_url("https://api.x/v1"), "https://api.x/v1/chat/completions");
}
