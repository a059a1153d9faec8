use mkt_pubber::message::{DecodeError, IncrementOrderBookInfo, PeriodMessage, PriceLevel,
    SymbolInfo, TradeInfo, WireFormat};

fn sample_record() -> PeriodMessage {
    PeriodMessage {
        period: 100,
        ts: 1_700_000_000_123,
        post_ts: 1_700_000_000_456,
        poster_id: String::from("poster-7"),
        symbol_infos: vec![
            SymbolInfo {
                symbol: String::from("BTC-USDT"),
                trades: vec![
                    TradeInfo {
                        timestamp: 1_700_000_000_001,
                        side: String::from("buy"),
                        price: 65000.25f64.to_bits(),
                        amount: 0.5f64.to_bits(),
                    },
                    TradeInfo {
                        timestamp: 1_700_000_000_002,
                        side: String::from("sell"),
                        price: 64999.75f64.to_bits(),
                        amount: 1.25f64.to_bits(),
                    },
                ],
                incs: vec![IncrementOrderBookInfo {
                    timestamp: 1_700_000_000_003,
                    is_snapshot: true,
                    bids: vec![PriceLevel { price: 64990.0f64.to_bits(), amount: 2.0f64.to_bits() }],
                    asks: vec![
                        PriceLevel { price: 65010.0f64.to_bits(), amount: 0.75f64.to_bits() },
                        PriceLevel { price: 65020.0f64.to_bits(), amount: 3.0f64.to_bits() },
                    ],
                }],
            },
            SymbolInfo { symbol: String::from("ETH-USDT"), trades: vec![], incs: vec![] },
        ],
    }
}

fn assert_same(a: &PeriodMessage, b: &PeriodMessage) {
    assert_eq!(a, b);
}

#[test]
fn round_trip_primary_uncompressed() {
    let m = sample_record();
    let bytes = m.encode(false, WireFormat::Primary);
    let back = PeriodMessage::decode(&bytes, false, WireFormat::Primary).unwrap();
    assert_same(&m, &back);
}

#[test]
fn round_trip_primary_compressed() {
    let m = sample_record();
    let bytes = m.encode(true, WireFormat::Primary);
    let back = PeriodMessage::decode(&bytes, true, WireFormat::Primary).unwrap();
    assert_same(&m, &back);
}

#[test]
fn round_trip_legacy_uncompressed() {
    let m = sample_record();
    let bytes = m.encode(false, WireFormat::Legacy);
    let back = PeriodMessage::decode(&bytes, false, WireFormat::Legacy).unwrap();
    assert_same(&m, &back);
}

#[test]
fn round_trip_legacy_compressed() {
    let m = sample_record();
    let bytes = m.encode(true, WireFormat::Legacy);
    let back = PeriodMessage::decode(&bytes, true, WireFormat::Legacy).unwrap();
    assert_same(&m, &back);
}

#[test]
fn round_trip_empty_record() {
    let m = PeriodMessage {
        period: -3,
        ts: 0,
        post_ts: i64::MIN,
        poster_id: String::new(),
        symbol_infos: vec![],
    };
    for fmt in [WireFormat::Primary, WireFormat::Legacy] {
        for compressed in [false, true] {
            let bytes = m.encode(compressed, fmt);
            let back = PeriodMessage::decode(&bytes, compressed, fmt).unwrap();
            assert_same(&m, &back);
        }
    }
}

#[test]
fn round_trip_non_ascii_symbol() {
    let mut m = sample_record();
    m.poster_id = String::from("发布者-α");
    m.symbol_infos[0].symbol = String::from("黄金/人民币");
    let bytes = m.encode(true, WireFormat::Primary);
    let back = PeriodMessage::decode(&bytes, true, WireFormat::Primary).unwrap();
    assert_same(&m, &back);
}

#[test]
fn compression_flag_is_honored_literally() {
    let m = sample_record();
    let plain = m.encode(false, WireFormat::Primary);
    let squeezed = m.encode(true, WireFormat::Primary);
    // The compressed envelope is a different byte string, and treating a
    // raw envelope as compressed fails rather than being sniffed.
    assert_ne!(plain, squeezed);
    assert_eq!(
        PeriodMessage::decode(&plain, true, WireFormat::Primary).unwrap_err(),
        DecodeError::DecompressionError
    );
}

#[test]
fn format_discriminant_is_not_sniffed() {
    let m = sample_record();
    let primary = m.encode(false, WireFormat::Primary);
    assert_eq!(
        PeriodMessage::decode(&primary, false, WireFormat::Legacy).unwrap_err(),
        DecodeError::FormatError
    );
}

#[test]
fn truncated_envelope_is_a_format_error() {
    let m = sample_record();
    let bytes = m.encode(false, WireFormat::Primary);
    let cut = &bytes[..bytes.len() - 1];
    assert_eq!(
        PeriodMessage::decode(cut, false, WireFormat::Primary).unwrap_err(),
        DecodeError::FormatError
    );
}

#[test]
fn trailing_garbage_is_a_format_error() {
    let m = sample_record();
    let mut bytes = m.encode(false, WireFormat::Legacy);
    bytes.push(0);
    assert_eq!(
        PeriodMessage::decode(&bytes, false, WireFormat::Legacy).unwrap_err(),
        DecodeError::FormatError
    );
}

#[test]
fn empty_envelope_is_a_format_error() {
    assert_eq!(
        PeriodMessage::decode(&[], false, WireFormat::Primary).unwrap_err(),
        DecodeError::FormatError
    );
}

#[test]
fn info_count_sums_trades_and_updates() {
    let m = sample_record();
    // Two trades and one incremental update under the first symbol,
    // nothing under the second.
    assert_eq!(m.total_info_count(), 3);
    let empty = PeriodMessage {
        period: 1,
        ts: 0,
        post_ts: 0,
        poster_id: String::new(),
        symbol_infos: vec![],
    };
    assert_eq!(empty.total_info_count(), 0);
}
