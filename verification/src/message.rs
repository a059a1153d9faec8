//! Period capture records and the two wire formats that carry them.
//!
//! A record is a tree of plain values: the period window, capture and
//! publish timestamps, the poster, and per-symbol lists of trades and
//! incremental order-book updates.  Prices and amounts are stored as the
//! 64-bit patterns of the original quotations, so encoding and decoding
//! reproduce a record bit for bit.
//!
//! Two formats are supported, selected by an explicit discriminant: the
//! primary structured format and a legacy flat format that carries the
//! poster ahead of the window fields.  Either may additionally be wrapped
//! in zlib compression.

use vstd::prelude::*;
use std::io::Read;
use std::io::Write;

verus! {

use crate::bytes::{enc_u64, enc_i64, enc_bool, enc_str, concat_map, starts_with, lemma_parts,
    lemma_concat_map_split, lemma_concat_map_push, lemma_concat_map_min_len, push_u64, push_i64,
    push_bool, push_str, dec_u64, dec_i64, dec_bool, dec_string};

/// One order-book price level; both fields hold the 64-bit pattern of
/// the quoted value.
#[derive(Debug, Clone, Copy, PartialEq, Eq, Structural)]
pub struct PriceLevel {
    pub price: u64,
    pub amount: u64,
}

impl DeepView for PriceLevel {
    type V = PriceLevel;

    open spec fn deep_view(&self) -> PriceLevel {
        *self
    }
}

/// One incremental order-book update: a snapshot flag and the changed
/// levels on both sides.
#[derive(Debug, Clone, PartialEq, Eq)]
pub struct IncrementOrderBookInfo {
    pub timestamp: i64,
    pub is_snapshot: bool,
    pub bids: Vec<PriceLevel>,
    pub asks: Vec<PriceLevel>,
}

/// The mathematical value of an incremental update.
pub struct IncModel {
    pub timestamp: i64,
    pub is_snapshot: bool,
    pub bids: Seq<PriceLevel>,
    pub asks: Seq<PriceLevel>,
}

impl DeepView for IncrementOrderBookInfo {
    type V = IncModel;

    open spec fn deep_view(&self) -> IncModel {
        IncModel {
            timestamp: self.timestamp,
            is_snapshot: self.is_snapshot,
            bids: self.bids.deep_view(),
            asks: self.asks.deep_view(),
        }
    }
}

/// One trade: the side is free text, price and amount hold the 64-bit
/// patterns of the quoted values.
#[derive(Debug, Clone, PartialEq, Eq)]
pub struct TradeInfo {
    pub timestamp: i64,
    pub side: String,
    pub price: u64,
    pub amount: u64,
}

/// The mathematical value of a trade.
pub struct TradeModel {
    pub timestamp: i64,
    pub side: Seq<char>,
    pub price: u64,
    pub amount: u64,
}

impl DeepView for TradeInfo {
    type V = TradeModel;

    open spec fn deep_view(&self) -> TradeModel {
        TradeModel {
            timestamp: self.timestamp,
            side: self.side@,
            price: self.price,
            amount: self.amount,
        }
    }
}

/// All activity captured for one symbol within the period.
#[derive(Debug, Clone, PartialEq, Eq)]
pub struct SymbolInfo {
    pub symbol: String,
    pub trades: Vec<TradeInfo>,
    pub incs: Vec<IncrementOrderBookInfo>,
}

/// The mathematical value of one symbol's capture.
pub struct SymbolModel {
    pub symbol: Seq<char>,
    pub trades: Seq<TradeModel>,
    pub incs: Seq<IncModel>,
}

impl DeepView for SymbolInfo {
    type V = SymbolModel;

    open spec fn deep_view(&self) -> SymbolModel {
        SymbolModel {
            symbol: self.symbol@,
            trades: self.trades.deep_view(),
            incs: self.incs.deep_view(),
        }
    }
}

/// One market-period capture record.
#[derive(Debug, Clone, PartialEq, Eq)]
pub struct PeriodMessage {
    pub period: i64,
    pub ts: i64,
    pub post_ts: i64,
    pub poster_id: String,
    pub symbol_infos: Vec<SymbolInfo>,
}

/// The mathematical value of a record.
pub struct RecordModel {
    pub period: i64,
    pub ts: i64,
    pub post_ts: i64,
    pub poster_id: Seq<char>,
    pub symbol_infos: Seq<SymbolModel>,
}

impl DeepView for PeriodMessage {
    type V = RecordModel;

    open spec fn deep_view(&self) -> RecordModel {
        RecordModel {
            period: self.period,
            ts: self.ts,
            post_ts: self.post_ts,
            poster_id: self.poster_id@,
            symbol_infos: self.symbol_infos.deep_view(),
        }
    }
}

impl View for PeriodMessage {
    type V = RecordModel;

    open spec fn view(&self) -> RecordModel {
        self.deep_view()
    }
}

/// The wire format a record is laid down in, always chosen explicitly
/// by the caller; nothing is inferred from the bytes.
#[derive(Debug, Clone, Copy, PartialEq, Eq, Structural)]
pub enum WireFormat {
    Primary,
    Legacy,
}

/// Why a record failed to decode.
#[derive(Debug, Clone, Copy, PartialEq, Eq, Structural)]
pub enum DecodeError {
    /// The bytes are not an encoding of any record in the requested
    /// format.
    FormatError,
    /// The compressed envelope could not be inflated.
    DecompressionError,
}

/// A list as its length followed by the encodings of its elements.
pub open spec fn enc_list<T>(s: Seq<T>, f: spec_fn(T) -> Seq<u8>) -> Seq<u8> {
    enc_u64(s.len() as u64) + concat_map(s, f)
}

/// One price level on the wire.
pub open spec fn enc_price(p: PriceLevel) -> Seq<u8> {
    enc_u64(p.price) + enc_u64(p.amount)
}

/// One trade on the wire.
pub open spec fn enc_trade(t: TradeModel) -> Seq<u8> {
    enc_i64(t.timestamp) + enc_str(t.side) + enc_u64(t.price) + enc_u64(t.amount)
}

/// A list of price levels on the wire.
pub open spec fn enc_price_list(s: Seq<PriceLevel>) -> Seq<u8> {
    enc_list(s, |p: PriceLevel| enc_price(p))
}

/// One incremental update on the wire.
pub open spec fn enc_inc(v: IncModel) -> Seq<u8> {
    enc_i64(v.timestamp) + enc_bool(v.is_snapshot) + enc_price_list(v.bids) + enc_price_list(
        v.asks,
    )
}

/// A list of trades on the wire.
pub open spec fn enc_trade_list(s: Seq<TradeModel>) -> Seq<u8> {
    enc_list(s, |t: TradeModel| enc_trade(t))
}

/// A list of incremental updates on the wire.
pub open spec fn enc_inc_list(s: Seq<IncModel>) -> Seq<u8> {
    enc_list(s, |v: IncModel| enc_inc(v))
}

/// One symbol's capture on the wire.
pub open spec fn enc_symbol(s: SymbolModel) -> Seq<u8> {
    enc_str(s.symbol) + enc_trade_list(s.trades) + enc_inc_list(s.incs)
}

/// A list of symbol captures on the wire.
pub open spec fn enc_symbol_list(s: Seq<SymbolModel>) -> Seq<u8> {
    enc_list(s, |x: SymbolModel| enc_symbol(x))
}

/// The leading discriminant byte of each format.
pub open spec fn format_tag(fmt: WireFormat) -> u8 {
    match fmt {
        WireFormat::Primary => 1u8,
        WireFormat::Legacy => 0u8,
    }
}

/// The fields of a record on the wire, after the discriminant.  The
/// primary format carries the window fields first; the legacy flat
/// format carries the poster first.
pub open spec fn enc_body(m: RecordModel, fmt: WireFormat) -> Seq<u8> {
    match fmt {
        WireFormat::Primary => enc_i64(m.period) + enc_i64(m.ts) + enc_i64(m.post_ts) + enc_str(
            m.poster_id,
        ) + enc_symbol_list(m.symbol_infos),
        WireFormat::Legacy => enc_str(m.poster_id) + enc_i64(m.period) + enc_i64(m.ts) + enc_i64(
            m.post_ts,
        ) + enc_symbol_list(m.symbol_infos),
    }
}

/// A whole record on the wire, before any compression: the format's
/// discriminant byte, then the fields.
pub open spec fn enc_record(m: RecordModel, fmt: WireFormat) -> Seq<u8> {
    seq![format_tag(fmt)] + enc_body(m, fmt)
}

fn push_price(out: &mut Vec<u8>, p: &PriceLevel)
    ensures
        final(out)@ == old(out)@ + enc_price(*p),
{
    push_u64(out, p.price);
    push_u64(out, p.amount);
    proof {
        assert(final(out)@ =~= old(out)@ + enc_price(*p));
    }
}

fn push_price_list(out: &mut Vec<u8>, s: &Vec<PriceLevel>)
    ensures
        final(out)@ == old(out)@ + enc_price_list(s.deep_view()),
{
    push_u64(out, s.len() as u64);
    let ghost f = (|p: PriceLevel| enc_price(p));
    let ghost mid = out@;
    let mut i: usize = 0;
    proof {
        assert(s.deep_view().take(0int) =~= Seq::<PriceLevel>::empty());
        assert(out@ =~= mid + concat_map(s.deep_view().take(0int), f));
    }
    while i < s.len()
        invariant
            i <= s@.len(),
            f == (|p: PriceLevel| enc_price(p)),
            out@ == mid + concat_map(s.deep_view().take(i as int), f),
            mid == old(out)@ + enc_u64(s@.len() as u64),
        decreases s@.len() - i,
    {
        proof {
            lemma_concat_map_push(s.deep_view().take(i as int), f, s.deep_view()[i as int]);
            assert(s.deep_view().take(i as int).push(s.deep_view()[i as int]) =~= s
                .deep_view()
                .take(i + 1));
        }
        push_price(out, &s[i]);
        i += 1;
    }
    proof {
        assert(s.deep_view().take(s@.len() as int) =~= s.deep_view());
        assert(out@ =~= old(out)@ + enc_list(s.deep_view(), f));
    }
}

fn push_trade(out: &mut Vec<u8>, t: &TradeInfo)
    ensures
        final(out)@ == old(out)@ + enc_trade(t.deep_view()),
{
    push_i64(out, t.timestamp);
    push_str(out, self_str(&t.side));
    push_u64(out, t.price);
    push_u64(out, t.amount);
    proof {
        assert(final(out)@ =~= old(out)@ + enc_trade(t.deep_view()));
    }
}

/// A `String` as a slice, view preserved.
fn self_str(s: &String) -> (r: &str)
    ensures
        r@ == s@,
{
    s.as_str()
}

fn push_trade_list(out: &mut Vec<u8>, s: &Vec<TradeInfo>)
    ensures
        final(out)@ == old(out)@ + enc_trade_list(s.deep_view()),
{
    push_u64(out, s.len() as u64);
    let ghost f = (|t: TradeModel| enc_trade(t));
    let ghost mid = out@;
    let mut i: usize = 0;
    proof {
        assert(s.deep_view().take(0int) =~= Seq::<TradeModel>::empty());
        assert(out@ =~= mid + concat_map(s.deep_view().take(0int), f));
    }
    while i < s.len()
        invariant
            i <= s@.len(),
            f == (|t: TradeModel| enc_trade(t)),
            out@ == mid + concat_map(s.deep_view().take(i as int), f),
            mid == old(out)@ + enc_u64(s@.len() as u64),
        decreases s@.len() - i,
    {
        proof {
            lemma_concat_map_push(s.deep_view().take(i as int), f, s.deep_view()[i as int]);
            assert(s.deep_view().take(i as int).push(s.deep_view()[i as int]) =~= s
                .deep_view()
                .take(i + 1));
        }
        push_trade(out, &s[i]);
        i += 1;
    }
    proof {
        assert(s.deep_view().take(s@.len() as int) =~= s.deep_view());
        assert(out@ =~= old(out)@ + enc_list(s.deep_view(), f));
    }
}

fn push_inc(out: &mut Vec<u8>, v: &IncrementOrderBookInfo)
    ensures
        final(out)@ == old(out)@ + enc_inc(v.deep_view()),
{
    push_i64(out, v.timestamp);
    push_bool(out, v.is_snapshot);
    push_price_list(out, &v.bids);
    push_price_list(out, &v.asks);
    proof {
        assert(final(out)@ =~= old(out)@ + enc_inc(v.deep_view()));
    }
}

fn push_inc_list(out: &mut Vec<u8>, s: &Vec<IncrementOrderBookInfo>)
    ensures
        final(out)@ == old(out)@ + enc_inc_list(s.deep_view()),
{
    push_u64(out, s.len() as u64);
    let ghost f = (|v: IncModel| enc_inc(v));
    let ghost mid = out@;
    let mut i: usize = 0;
    proof {
        assert(s.deep_view().take(0int) =~= Seq::<IncModel>::empty());
        assert(out@ =~= mid + concat_map(s.deep_view().take(0int), f));
    }
    while i < s.len()
        invariant
            i <= s@.len(),
            f == (|v: IncModel| enc_inc(v)),
            out@ == mid + concat_map(s.deep_view().take(i as int), f),
            mid == old(out)@ + enc_u64(s@.len() as u64),
        decreases s@.len() - i,
    {
        proof {
            lemma_concat_map_push(s.deep_view().take(i as int), f, s.deep_view()[i as int]);
            assert(s.deep_view().take(i as int).push(s.deep_view()[i as int]) =~= s
                .deep_view()
                .take(i + 1));
        }
        push_inc(out, &s[i]);
        i += 1;
    }
    proof {
        assert(s.deep_view().take(s@.len() as int) =~= s.deep_view());
        assert(out@ =~= old(out)@ + enc_list(s.deep_view(), f));
    }
}

fn push_symbol(out: &mut Vec<u8>, s: &SymbolInfo)
    ensures
        final(out)@ == old(out)@ + enc_symbol(s.deep_view()),
{
    push_str(out, self_str(&s.symbol));
    push_trade_list(out, &s.trades);
    push_inc_list(out, &s.incs);
    proof {
        assert(final(out)@ =~= old(out)@ + enc_symbol(s.deep_view()));
    }
}

fn push_symbol_list(out: &mut Vec<u8>, s: &Vec<SymbolInfo>)
    ensures
        final(out)@ == old(out)@ + enc_symbol_list(s.deep_view()),
{
    push_u64(out, s.len() as u64);
    let ghost f = (|x: SymbolModel| enc_symbol(x));
    let ghost mid = out@;
    let mut i: usize = 0;
    proof {
        assert(s.deep_view().take(0int) =~= Seq::<SymbolModel>::empty());
        assert(out@ =~= mid + concat_map(s.deep_view().take(0int), f));
    }
    while i < s.len()
        invariant
            i <= s@.len(),
            f == (|x: SymbolModel| enc_symbol(x)),
            out@ == mid + concat_map(s.deep_view().take(i as int), f),
            mid == old(out)@ + enc_u64(s@.len() as u64),
        decreases s@.len() - i,
    {
        proof {
            lemma_concat_map_push(s.deep_view().take(i as int), f, s.deep_view()[i as int]);
            assert(s.deep_view().take(i as int).push(s.deep_view()[i as int]) =~= s
                .deep_view()
                .take(i + 1));
        }
        push_symbol(out, &s[i]);
        i += 1;
    }
    proof {
        assert(s.deep_view().take(s@.len() as int) =~= s.deep_view());
        assert(out@ =~= old(out)@ + enc_list(s.deep_view(), f));
    }
}

fn dec_price(data: &[u8], pos: &mut usize) -> (r: Option<PriceLevel>)
    requires
        *old(pos) <= data@.len(),
    ensures
        r matches Some(v) ==> *final(pos) == *old(pos) + enc_price(v).len() && starts_with(
            data@,
            *old(pos) as int,
            enc_price(v),
        ),
        forall|m: PriceLevel|
            starts_with(data@, *old(pos) as int, #[trigger] enc_price(m)) ==> (r == Some(m)
                && *final(pos) == *old(pos) + enc_price(m).len()),
{
    let ghost p0 = *pos as int;
    let mut q = *pos;
    let price = match dec_u64(data, &mut q) {
        None => {
            proof {
                assert forall|m: PriceLevel| !starts_with(data@, p0, #[trigger] enc_price(m)) by {
                    if starts_with(data@, p0, enc_price(m)) {
                        lemma_parts(data@, p0, enc_u64(m.price), enc_u64(m.amount));
                    }
                }
            }
            return None;
        },
        Some(x) => x,
    };
    let amount = match dec_u64(data, &mut q) {
        None => {
            proof {
                assert forall|m: PriceLevel| !starts_with(data@, p0, #[trigger] enc_price(m)) by {
                    if starts_with(data@, p0, enc_price(m)) {
                        lemma_parts(data@, p0, enc_u64(m.price), enc_u64(m.amount));
                    }
                }
            }
            return None;
        },
        Some(x) => x,
    };
    let v = PriceLevel { price, amount };
    proof {
        lemma_parts(data@, p0, enc_u64(price), enc_u64(amount));
        assert(starts_with(data@, p0, enc_price(v)));
        assert forall|m: PriceLevel| starts_with(data@, p0, #[trigger] enc_price(m)) implies m
            == v by {
            lemma_parts(data@, p0, enc_u64(m.price), enc_u64(m.amount));
        }
    }
    *pos = q;
    Some(v)
}

fn dec_price_list(data: &[u8], pos: &mut usize) -> (r: Option<Vec<PriceLevel>>)
    requires
        *old(pos) <= data@.len(),
    ensures
        r matches Some(v) ==> *final(pos) == *old(pos) + enc_price_list(v.deep_view()).len()
            && starts_with(data@, *old(pos) as int, enc_price_list(v.deep_view())),
        forall|lm: Seq<PriceLevel>|
            starts_with(data@, *old(pos) as int, #[trigger] enc_price_list(lm)) ==> (r matches Some(
                v,
            ) && v.deep_view() == lm && *final(pos) == *old(pos) + enc_price_list(lm).len()),
{
    let ghost p0 = *pos as int;
    let ghost f = (|p: PriceLevel| enc_price(p));
    let mut q = *pos;
    let n = match dec_u64(data, &mut q) {
        None => {
            proof {
                assert forall|lm: Seq<PriceLevel>|
                    !starts_with(data@, p0, #[trigger] enc_price_list(lm)) by {
                    if starts_with(data@, p0, enc_price_list(lm)) {
                        lemma_parts(data@, p0, enc_u64(lm.len() as u64), concat_map(lm, f));
                    }
                }
            }
            return None;
        },
        Some(n) => n,
    };
    proof {
        assert forall|lm: Seq<PriceLevel>|
            starts_with(data@, p0, #[trigger] enc_price_list(lm)) implies lm.len() as u64 == n
            && starts_with(data@, p0 + 8, concat_map(lm, f)) by {
            lemma_parts(data@, p0, enc_u64(lm.len() as u64), concat_map(lm, f));
        }
    }
    if n > (data.len() - q) as u64 {
        proof {
            assert forall|lm: Seq<PriceLevel>|
                !starts_with(data@, p0, #[trigger] enc_price_list(lm)) by {
                if starts_with(data@, p0, enc_price_list(lm)) {
                    assert(forall|x: PriceLevel| (#[trigger] f(x)).len() >= 1);
                    lemma_concat_map_min_len(lm, f);
                }
            }
        }
        return None;
    }
    let mut out: Vec<PriceLevel> = Vec::new();
    let mut i: u64 = 0;
    proof {
        assert(out.deep_view() =~= Seq::<PriceLevel>::empty());
        assert(concat_map(out.deep_view(), f) =~= Seq::<u8>::empty());
        assert(data@.subrange(p0 + 8, p0 + 8) =~= Seq::<u8>::empty());
    }
    while i < n
        invariant
            *old(pos) <= data@.len(),
            p0 == *old(pos) as int,
            f == (|p: PriceLevel| enc_price(p)),
            i == out.deep_view().len(),
            i <= n,
            p0 + 8 <= q <= data@.len(),
            starts_with(data@, p0 + 8, concat_map(out.deep_view(), f)),
            q == p0 + 8 + concat_map(out.deep_view(), f).len(),
            forall|lm: Seq<PriceLevel>|
                starts_with(data@, p0, #[trigger] enc_price_list(lm)) ==> (lm.len() as u64 == n
                    && out.deep_view() == lm.take(i as int)),
        decreases n - i,
    {
        let ghost pre = out.deep_view();
        let x = match dec_price(data, &mut q) {
            None => {
                proof {
                    assert forall|lm: Seq<PriceLevel>|
                        !starts_with(data@, p0, #[trigger] enc_price_list(lm)) by {
                        if starts_with(data@, p0, enc_price_list(lm)) {
                            lemma_parts(data@, p0, enc_u64(lm.len() as u64), concat_map(lm, f));
                            lemma_concat_map_split(lm, f, i as int);
                            lemma_parts(
                                data@,
                                p0 + 8,
                                concat_map(lm.take(i as int), f),
                                f(lm[i as int]) + concat_map(lm.skip(i as int + 1), f),
                            );
                            lemma_parts(
                                data@,
                                p0 + 8 + concat_map(lm.take(i as int), f).len(),
                                f(lm[i as int]),
                                concat_map(lm.skip(i as int + 1), f),
                            );
                            assert(concat_map(lm, f) =~= concat_map(lm.take(i as int), f) + (f(
                                lm[i as int],
                            ) + concat_map(lm.skip(i as int + 1), f)));
                            assert(starts_with(data@, q as int, enc_price(lm[i as int])));
                        }
                    }
                }
                return None;
            },
            Some(x) => x,
        };
        out.push(x);
        proof {
            assert(out.deep_view() =~= pre.push(x));
            lemma_concat_map_push(pre, f, x);
            lemma_parts(data@, p0 + 8, concat_map(pre, f), f(x));
            assert forall|lm: Seq<PriceLevel>|
                starts_with(data@, p0, #[trigger] enc_price_list(lm)) implies out.deep_view()
                == lm.take(i as int + 1) by {
                lemma_parts(data@, p0, enc_u64(lm.len() as u64), concat_map(lm, f));
                lemma_concat_map_split(lm, f, i as int);
                lemma_parts(
                    data@,
                    p0 + 8,
                    concat_map(lm.take(i as int), f),
                    f(lm[i as int]) + concat_map(lm.skip(i as int + 1), f),
                );
                lemma_parts(
                    data@,
                    p0 + 8 + concat_map(lm.take(i as int), f).len(),
                    f(lm[i as int]),
                    concat_map(lm.skip(i as int + 1), f),
                );
                assert(concat_map(lm, f) =~= concat_map(lm.take(i as int), f) + (f(lm[i as int])
                    + concat_map(lm.skip(i as int + 1), f)));
                assert(starts_with(data@, q - enc_price(lm[i as int]).len(), enc_price(
                    lm[i as int],
                )));
                assert(x == lm[i as int]);
                assert(lm.take(i as int).push(lm[i as int]) =~= lm.take(i as int + 1));
            }
        }
        i = i + 1;
    }
    proof {
        assert(out.deep_view().len() == n);
        lemma_parts(data@, p0, enc_u64(n), concat_map(out.deep_view(), f));
        assert(starts_with(data@, p0, enc_price_list(out.deep_view())));
        assert forall|lm: Seq<PriceLevel>|
            starts_with(data@, p0, #[trigger] enc_price_list(lm)) implies lm
            == out.deep_view() by {
            lemma_parts(data@, p0, enc_u64(lm.len() as u64), concat_map(lm, f));
            assert(forall|x: PriceLevel| (#[trigger] f(x)).len() >= 1);
            lemma_concat_map_min_len(lm, f);
            assert(lm.len() <= data@.len());
            assert(lm.len() == n);
            assert(out.deep_view() == lm.take(lm.len() as int));
            assert(lm.take(lm.len() as int) =~= lm);
        }
    }
    *pos = q;
    Some(out)
}


proof fn trade_parts(data: Seq<u8>, p0: int, m: TradeModel)
    requires
        0 <= p0,
        starts_with(data, p0, enc_trade(m)),
    ensures
        starts_with(data, p0, enc_i64(m.timestamp)),
        starts_with(data, p0 + 9, enc_str(m.side)),
        starts_with(data, p0 + 9 + enc_str(m.side).len(), enc_u64(m.price)),
        starts_with(data, p0 + 17 + enc_str(m.side).len(), enc_u64(m.amount)),
        enc_trade(m).len() == 25 + enc_str(m.side).len(),
{
    let a = enc_i64(m.timestamp);
    let b = enc_str(m.side);
    let c = enc_u64(m.price);
    let d = enc_u64(m.amount);
    assert(enc_trade(m) =~= a + (b + (c + d)));
    lemma_parts(data, p0, a, b + (c + d));
    lemma_parts(data, p0 + 9, b, c + d);
    lemma_parts(data, p0 + 9 + b.len(), c, d);
}

proof fn trade_join(data: Seq<u8>, p0: int, m: TradeModel)
    requires
        0 <= p0,
        starts_with(data, p0, enc_i64(m.timestamp)),
        starts_with(data, p0 + 9, enc_str(m.side)),
        starts_with(data, p0 + 9 + enc_str(m.side).len(), enc_u64(m.price)),
        starts_with(data, p0 + 17 + enc_str(m.side).len(), enc_u64(m.amount)),
    ensures
        starts_with(data, p0, enc_trade(m)),
        enc_trade(m).len() == 25 + enc_str(m.side).len(),
{
    let a = enc_i64(m.timestamp);
    let b = enc_str(m.side);
    let c = enc_u64(m.price);
    let d = enc_u64(m.amount);
    lemma_parts(data, p0 + 9 + b.len(), c, d);
    lemma_parts(data, p0 + 9, b, c + d);
    lemma_parts(data, p0, a, b + (c + d));
    assert(enc_trade(m) =~= a + (b + (c + d)));
}

fn dec_trade(data: &[u8], pos: &mut usize) -> (r: Option<TradeInfo>)
    requires
        *old(pos) <= data@.len(),
    ensures
        r matches Some(v) ==> *final(pos) == *old(pos) + enc_trade(v.deep_view()).len()
            && starts_with(data@, *old(pos) as int, enc_trade(v.deep_view())),
        forall|m: TradeModel|
            starts_with(data@, *old(pos) as int, #[trigger] enc_trade(m)) ==> (r matches Some(v)
                && v.deep_view() == m && *final(pos) == *old(pos) + enc_trade(m).len()),
{
    let ghost p0 = *pos as int;
    let mut q = *pos;
    let timestamp = match dec_i64(data, &mut q) {
        None => {
            proof {
                assert forall|m: TradeModel| !starts_with(data@, p0, #[trigger] enc_trade(m)) by {
                    if starts_with(data@, p0, enc_trade(m)) {
                        trade_parts(data@, p0, m);
                    }
                }
            }
            return None;
        },
        Some(x) => x,
    };
    let side = match dec_string(data, &mut q) {
        None => {
            proof {
                assert forall|m: TradeModel| !starts_with(data@, p0, #[trigger] enc_trade(m)) by {
                    if starts_with(data@, p0, enc_trade(m)) {
                        trade_parts(data@, p0, m);
                    }
                }
            }
            return None;
        },
        Some(x) => x,
    };
    let price = match dec_u64(data, &mut q) {
        None => {
            proof {
                assert forall|m: TradeModel| !starts_with(data@, p0, #[trigger] enc_trade(m)) by {
                    if starts_with(data@, p0, enc_trade(m)) {
                        trade_parts(data@, p0, m);
                    }
                }
            }
            return None;
        },
        Some(x) => x,
    };
    let amount = match dec_u64(data, &mut q) {
        None => {
            proof {
                assert forall|m: TradeModel| !starts_with(data@, p0, #[trigger] enc_trade(m)) by {
                    if starts_with(data@, p0, enc_trade(m)) {
                        trade_parts(data@, p0, m);
                    }
                }
            }
            return None;
        },
        Some(x) => x,
    };
    let v = TradeInfo { timestamp, side, price, amount };
    proof {
        trade_join(data@, p0, v.deep_view());
        assert forall|m: TradeModel| starts_with(data@, p0, #[trigger] enc_trade(m)) implies v
            .deep_view() == m by {
            trade_parts(data@, p0, m);
        }
    }
    *pos = q;
    Some(v)
}

proof fn inc_parts(data: Seq<u8>, p0: int, m: IncModel)
    requires
        0 <= p0,
        starts_with(data, p0, enc_inc(m)),
    ensures
        starts_with(data, p0, enc_i64(m.timestamp)),
        starts_with(data, p0 + 9, enc_bool(m.is_snapshot)),
        starts_with(data, p0 + 10, enc_price_list(m.bids)),
        starts_with(data, p0 + 10 + enc_price_list(m.bids).len(), enc_price_list(m.asks)),
        enc_inc(m).len() == 10 + enc_price_list(m.bids).len() + enc_price_list(m.asks).len(),
{
    let a = enc_i64(m.timestamp);
    let b = enc_bool(m.is_snapshot);
    let c = enc_price_list(m.bids);
    let d = enc_price_list(m.asks);
    assert(enc_inc(m) =~= a + (b + (c + d)));
    lemma_parts(data, p0, a, b + (c + d));
    lemma_parts(data, p0 + 9, b, c + d);
    lemma_parts(data, p0 + 10, c, d);
}

proof fn inc_join(data: Seq<u8>, p0: int, m: IncModel)
    requires
        0 <= p0,
        starts_with(data, p0, enc_i64(m.timestamp)),
        starts_with(data, p0 + 9, enc_bool(m.is_snapshot)),
        starts_with(data, p0 + 10, enc_price_list(m.bids)),
        starts_with(data, p0 + 10 + enc_price_list(m.bids).len(), enc_price_list(m.asks)),
    ensures
        starts_with(data, p0, enc_inc(m)),
        enc_inc(m).len() == 10 + enc_price_list(m.bids).len() + enc_price_list(m.asks).len(),
{
    let a = enc_i64(m.timestamp);
    let b = enc_bool(m.is_snapshot);
    let c = enc_price_list(m.bids);
    let d = enc_price_list(m.asks);
    lemma_parts(data, p0 + 10, c, d);
    lemma_parts(data, p0 + 9, b, c + d);
    lemma_parts(data, p0, a, b + (c + d));
    assert(enc_inc(m) =~= a + (b + (c + d)));
}

fn dec_inc(data: &[u8], pos: &mut usize) -> (r: Option<IncrementOrderBookInfo>)
    requires
        *old(pos) <= data@.len(),
    ensures
        r matches Some(v) ==> *final(pos) == *old(pos) + enc_inc(v.deep_view()).len()
            && starts_with(data@, *old(pos) as int, enc_inc(v.deep_view())),
        forall|m: IncModel|
            starts_with(data@, *old(pos) as int, #[trigger] enc_inc(m)) ==> (r matches Some(v)
                && v.deep_view() == m && *final(pos) == *old(pos) + enc_inc(m).len()),
{
    let ghost p0 = *pos as int;
    let mut q = *pos;
    let timestamp = match dec_i64(data, &mut q) {
        None => {
            proof {
                assert forall|m: IncModel| !starts_with(data@, p0, #[trigger] enc_inc(m)) by {
                    if starts_with(data@, p0, enc_inc(m)) {
                        inc_parts(data@, p0, m);
                    }
                }
            }
            return None;
        },
        Some(x) => x,
    };
    let is_snapshot = match dec_bool(data, &mut q) {
        None => {
            proof {
                assert forall|m: IncModel| !starts_with(data@, p0, #[trigger] enc_inc(m)) by {
                    if starts_with(data@, p0, enc_inc(m)) {
                        inc_parts(data@, p0, m);
                    }
                }
            }
            return None;
        },
        Some(x) => x,
    };
    let bids = match dec_price_list(data, &mut q) {
        None => {
            proof {
                assert forall|m: IncModel| !starts_with(data@, p0, #[trigger] enc_inc(m)) by {
                    if starts_with(data@, p0, enc_inc(m)) {
                        inc_parts(data@, p0, m);
                    }
                }
            }
            return None;
        },
        Some(x) => x,
    };
    let asks = match dec_price_list(data, &mut q) {
        None => {
            proof {
                assert forall|m: IncModel| !starts_with(data@, p0, #[trigger] enc_inc(m)) by {
                    if starts_with(data@, p0, enc_inc(m)) {
                        inc_parts(data@, p0, m);
                    }
                }
            }
            return None;
        },
        Some(x) => x,
    };
    let v = IncrementOrderBookInfo { timestamp, is_snapshot, bids, asks };
    proof {
        inc_join(data@, p0, v.deep_view());
        assert forall|m: IncModel| starts_with(data@, p0, #[trigger] enc_inc(m)) implies v
            .deep_view() == m by {
            inc_parts(data@, p0, m);
        }
    }
    *pos = q;
    Some(v)
}

proof fn symbol_parts(data: Seq<u8>, p0: int, m: SymbolModel)
    requires
        0 <= p0,
        starts_with(data, p0, enc_symbol(m)),
    ensures
        starts_with(data, p0, enc_str(m.symbol)),
        starts_with(data, p0 + enc_str(m.symbol).len(), enc_trade_list(m.trades)),
        starts_with(
            data,
            p0 + enc_str(m.symbol).len() + enc_trade_list(m.trades).len(),
            enc_inc_list(m.incs),
        ),
        enc_symbol(m).len() == enc_str(m.symbol).len() + enc_trade_list(m.trades).len()
            + enc_inc_list(m.incs).len(),
{
    let a = enc_str(m.symbol);
    let b = enc_trade_list(m.trades);
    let c = enc_inc_list(m.incs);
    assert(enc_symbol(m) =~= a + (b + c));
    lemma_parts(data, p0, a, b + c);
    lemma_parts(data, p0 + a.len(), b, c);
}

proof fn symbol_join(data: Seq<u8>, p0: int, m: SymbolModel)
    requires
        0 <= p0,
        starts_with(data, p0, enc_str(m.symbol)),
        starts_with(data, p0 + enc_str(m.symbol).len(), enc_trade_list(m.trades)),
        starts_with(
            data,
            p0 + enc_str(m.symbol).len() + enc_trade_list(m.trades).len(),
            enc_inc_list(m.incs),
        ),
    ensures
        starts_with(data, p0, enc_symbol(m)),
        enc_symbol(m).len() == enc_str(m.symbol).len() + enc_trade_list(m.trades).len()
            + enc_inc_list(m.incs).len(),
{
    let a = enc_str(m.symbol);
    let b = enc_trade_list(m.trades);
    let c = enc_inc_list(m.incs);
    lemma_parts(data, p0 + a.len(), b, c);
    lemma_parts(data, p0, a, b + c);
    assert(enc_symbol(m) =~= a + (b + c));
}

fn dec_symbol(data: &[u8], pos: &mut usize) -> (r: Option<SymbolInfo>)
    requires
        *old(pos) <= data@.len(),
    ensures
        r matches Some(v) ==> *final(pos) == *old(pos) + enc_symbol(v.deep_view()).len()
            && starts_with(data@, *old(pos) as int, enc_symbol(v.deep_view())),
        forall|m: SymbolModel|
            starts_with(data@, *old(pos) as int, #[trigger] enc_symbol(m)) ==> (r matches Some(v)
                && v.deep_view() == m && *final(pos) == *old(pos) + enc_symbol(m).len()),
{
    let ghost p0 = *pos as int;
    let mut q = *pos;
    let symbol = match dec_string(data, &mut q) {
        None => {
            proof {
                assert forall|m: SymbolModel| !starts_with(data@, p0, #[trigger] enc_symbol(m)) by {
                    if starts_with(data@, p0, enc_symbol(m)) {
                        symbol_parts(data@, p0, m);
                    }
                }
            }
            return None;
        },
        Some(x) => x,
    };
    let trades = match dec_trade_list(data, &mut q) {
        None => {
            proof {
                assert forall|m: SymbolModel| !starts_with(data@, p0, #[trigger] enc_symbol(m)) by {
                    if starts_with(data@, p0, enc_symbol(m)) {
                        symbol_parts(data@, p0, m);
                    }
                }
            }
            return None;
        },
        Some(x) => x,
    };
    let incs = match dec_inc_list(data, &mut q) {
        None => {
            proof {
                assert forall|m: SymbolModel| !starts_with(data@, p0, #[trigger] enc_symbol(m)) by {
                    if starts_with(data@, p0, enc_symbol(m)) {
                        symbol_parts(data@, p0, m);
                    }
                }
            }
            return None;
        },
        Some(x) => x,
    };
    let v = SymbolInfo { symbol, trades, incs };
    proof {
        symbol_join(data@, p0, v.deep_view());
        assert forall|m: SymbolModel| starts_with(data@, p0, #[trigger] enc_symbol(m)) implies v
            .deep_view() == m by {
            symbol_parts(data@, p0, m);
        }
    }
    *pos = q;
    Some(v)
}

#[verifier::rlimit(100)]
#[verifier::spinoff_prover]
fn dec_trade_list(data: &[u8], pos: &mut usize) -> (r: Option<Vec<TradeInfo>>)
    requires
        *old(pos) <= data@.len(),
    ensures
        r matches Some(v) ==> *final(pos) == *old(pos) + enc_trade_list(v.deep_view()).len()
            && starts_with(data@, *old(pos) as int, enc_trade_list(v.deep_view())),
        forall|lm: Seq<TradeModel>|
            starts_with(data@, *old(pos) as int, #[trigger] enc_trade_list(lm)) ==> (r matches Some(
                v,
            ) && v.deep_view() == lm && *final(pos) == *old(pos) + enc_trade_list(lm).len()),
{
    let ghost p0 = *pos as int;
    let ghost f = (|t: TradeModel| enc_trade(t));
    let mut q = *pos;
    let n = match dec_u64(data, &mut q) {
        None => {
            proof {
                assert forall|lm: Seq<TradeModel>|
                    !starts_with(data@, p0, #[trigger] enc_trade_list(lm)) by {
                    if starts_with(data@, p0, enc_trade_list(lm)) {
                        lemma_parts(data@, p0, enc_u64(lm.len() as u64), concat_map(lm, f));
                    }
                }
            }
            return None;
        },
        Some(n) => n,
    };
    proof {
        assert forall|lm: Seq<TradeModel>|
            starts_with(data@, p0, #[trigger] enc_trade_list(lm)) implies lm.len() as u64 == n
            && starts_with(data@, p0 + 8, concat_map(lm, f)) by {
            lemma_parts(data@, p0, enc_u64(lm.len() as u64), concat_map(lm, f));
        }
    }
    if n > (data.len() - q) as u64 {
        proof {
            assert forall|lm: Seq<TradeModel>|
                !starts_with(data@, p0, #[trigger] enc_trade_list(lm)) by {
                if starts_with(data@, p0, enc_trade_list(lm)) {
                    assert(forall|x: TradeModel| (#[trigger] f(x)).len() >= 1);
                    lemma_concat_map_min_len(lm, f);
                }
            }
        }
        return None;
    }
    let mut out: Vec<TradeInfo> = Vec::new();
    let mut i: u64 = 0;
    proof {
        assert(out.deep_view() =~= Seq::<TradeModel>::empty());
        assert(concat_map(out.deep_view(), f) =~= Seq::<u8>::empty());
        assert(data@.subrange(p0 + 8, p0 + 8) =~= Seq::<u8>::empty());
    }
    while i < n
        invariant
            *old(pos) <= data@.len(),
            p0 == *old(pos) as int,
            f == (|t: TradeModel| enc_trade(t)),
            i == out.deep_view().len(),
            i <= n,
            p0 + 8 <= q <= data@.len(),
            starts_with(data@, p0 + 8, concat_map(out.deep_view(), f)),
            q == p0 + 8 + concat_map(out.deep_view(), f).len(),
            forall|lm: Seq<TradeModel>|
                starts_with(data@, p0, #[trigger] enc_trade_list(lm)) ==> (lm.len() as u64 == n
                    && out.deep_view() == lm.take(i as int)),
        decreases n - i,
    {
        let ghost pre = out.deep_view();
        let x = match dec_trade(data, &mut q) {
            None => {
                proof {
                    assert forall|lm: Seq<TradeModel>|
                        !starts_with(data@, p0, #[trigger] enc_trade_list(lm)) by {
                        if starts_with(data@, p0, enc_trade_list(lm)) {
                            lemma_parts(data@, p0, enc_u64(lm.len() as u64), concat_map(lm, f));
                            lemma_concat_map_split(lm, f, i as int);
                            lemma_parts(
                                data@,
                                p0 + 8,
                                concat_map(lm.take(i as int), f),
                                f(lm[i as int]) + concat_map(lm.skip(i as int + 1), f),
                            );
                            lemma_parts(
                                data@,
                                p0 + 8 + concat_map(lm.take(i as int), f).len(),
                                f(lm[i as int]),
                                concat_map(lm.skip(i as int + 1), f),
                            );
                            assert(concat_map(lm, f) =~= concat_map(lm.take(i as int), f) + (f(
                                lm[i as int],
                            ) + concat_map(lm.skip(i as int + 1), f)));
                            assert(starts_with(data@, q as int, enc_trade(lm[i as int])));
                        }
                    }
                }
                return None;
            },
            Some(x) => x,
        };
        out.push(x);
        proof {
            assert(out.deep_view() =~= pre.push(x.deep_view()));
            lemma_concat_map_push(pre, f, x.deep_view());
            lemma_parts(data@, p0 + 8, concat_map(pre, f), f(x.deep_view()));
            assert forall|lm: Seq<TradeModel>|
                starts_with(data@, p0, #[trigger] enc_trade_list(lm)) implies out.deep_view()
                == lm.take(i as int + 1) by {
                lemma_parts(data@, p0, enc_u64(lm.len() as u64), concat_map(lm, f));
                lemma_concat_map_split(lm, f, i as int);
                lemma_parts(
                    data@,
                    p0 + 8,
                    concat_map(lm.take(i as int), f),
                    f(lm[i as int]) + concat_map(lm.skip(i as int + 1), f),
                );
                lemma_parts(
                    data@,
                    p0 + 8 + concat_map(lm.take(i as int), f).len(),
                    f(lm[i as int]),
                    concat_map(lm.skip(i as int + 1), f),
                );
                assert(concat_map(lm, f) =~= concat_map(lm.take(i as int), f) + (f(lm[i as int])
                    + concat_map(lm.skip(i as int + 1), f)));
                assert(starts_with(data@, q - enc_trade(lm[i as int]).len(), enc_trade(
                    lm[i as int],
                )));
                assert(x.deep_view() == lm[i as int]);
                assert(lm.take(i as int).push(lm[i as int]) =~= lm.take(i as int + 1));
            }
        }
        i = i + 1;
    }
    proof {
        assert(out.deep_view().len() == n);
        lemma_parts(data@, p0, enc_u64(n), concat_map(out.deep_view(), f));
        assert(starts_with(data@, p0, enc_trade_list(out.deep_view())));
        assert forall|lm: Seq<TradeModel>|
            starts_with(data@, p0, #[trigger] enc_trade_list(lm)) implies lm
            == out.deep_view() by {
            lemma_parts(data@, p0, enc_u64(lm.len() as u64), concat_map(lm, f));
            assert(forall|x: TradeModel| (#[trigger] f(x)).len() >= 1);
            lemma_concat_map_min_len(lm, f);
            assert(lm.len() <= data@.len());
            assert(lm.len() == n);
            assert(out.deep_view() == lm.take(lm.len() as int));
            assert(lm.take(lm.len() as int) =~= lm);
        }
    }
    *pos = q;
    Some(out)
}

#[verifier::rlimit(100)]
#[verifier::spinoff_prover]
fn dec_inc_list(data: &[u8], pos: &mut usize) -> (r: Option<Vec<IncrementOrderBookInfo>>)
    requires
        *old(pos) <= data@.len(),
    ensures
        r matches Some(v) ==> *final(pos) == *old(pos) + enc_inc_list(v.deep_view()).len()
            && starts_with(data@, *old(pos) as int, enc_inc_list(v.deep_view())),
        forall|lm: Seq<IncModel>|
            starts_with(data@, *old(pos) as int, #[trigger] enc_inc_list(lm)) ==> (r matches Some(
                v,
            ) && v.deep_view() == lm && *final(pos) == *old(pos) + enc_inc_list(lm).len()),
{
    let ghost p0 = *pos as int;
    let ghost f = (|v: IncModel| enc_inc(v));
    let mut q = *pos;
    let n = match dec_u64(data, &mut q) {
        None => {
            proof {
                assert forall|lm: Seq<IncModel>|
                    !starts_with(data@, p0, #[trigger] enc_inc_list(lm)) by {
                    if starts_with(data@, p0, enc_inc_list(lm)) {
                        lemma_parts(data@, p0, enc_u64(lm.len() as u64), concat_map(lm, f));
                    }
                }
            }
            return None;
        },
        Some(n) => n,
    };
    proof {
        assert forall|lm: Seq<IncModel>|
            starts_with(data@, p0, #[trigger] enc_inc_list(lm)) implies lm.len() as u64 == n
            && starts_with(data@, p0 + 8, concat_map(lm, f)) by {
            lemma_parts(data@, p0, enc_u64(lm.len() as u64), concat_map(lm, f));
        }
    }
    if n > (data.len() - q) as u64 {
        proof {
            assert forall|lm: Seq<IncModel>|
                !starts_with(data@, p0, #[trigger] enc_inc_list(lm)) by {
                if starts_with(data@, p0, enc_inc_list(lm)) {
                    assert(forall|x: IncModel| (#[trigger] f(x)).len() >= 1);
                    lemma_concat_map_min_len(lm, f);
                }
            }
        }
        return None;
    }
    let mut out: Vec<IncrementOrderBookInfo> = Vec::new();
    let mut i: u64 = 0;
    proof {
        assert(out.deep_view() =~= Seq::<IncModel>::empty());
        assert(concat_map(out.deep_view(), f) =~= Seq::<u8>::empty());
        assert(data@.subrange(p0 + 8, p0 + 8) =~= Seq::<u8>::empty());
    }
    while i < n
        invariant
            *old(pos) <= data@.len(),
            p0 == *old(pos) as int,
            f == (|v: IncModel| enc_inc(v)),
            i == out.deep_view().len(),
            i <= n,
            p0 + 8 <= q <= data@.len(),
            starts_with(data@, p0 + 8, concat_map(out.deep_view(), f)),
            q == p0 + 8 + concat_map(out.deep_view(), f).len(),
            forall|lm: Seq<IncModel>|
                starts_with(data@, p0, #[trigger] enc_inc_list(lm)) ==> (lm.len() as u64 == n
                    && out.deep_view() == lm.take(i as int)),
        decreases n - i,
    {
        let ghost pre = out.deep_view();
        let x = match dec_inc(data, &mut q) {
            None => {
                proof {
                    assert forall|lm: Seq<IncModel>|
                        !starts_with(data@, p0, #[trigger] enc_inc_list(lm)) by {
                        if starts_with(data@, p0, enc_inc_list(lm)) {
                            lemma_parts(data@, p0, enc_u64(lm.len() as u64), concat_map(lm, f));
                            lemma_concat_map_split(lm, f, i as int);
                            lemma_parts(
                                data@,
                                p0 + 8,
                                concat_map(lm.take(i as int), f),
                                f(lm[i as int]) + concat_map(lm.skip(i as int + 1), f),
                            );
                            lemma_parts(
                                data@,
                                p0 + 8 + concat_map(lm.take(i as int), f).len(),
                                f(lm[i as int]),
                                concat_map(lm.skip(i as int + 1), f),
                            );
                            assert(concat_map(lm, f) =~= concat_map(lm.take(i as int), f) + (f(
                                lm[i as int],
                            ) + concat_map(lm.skip(i as int + 1), f)));
                            assert(starts_with(data@, q as int, enc_inc(lm[i as int])));
                        }
                    }
                }
                return None;
            },
            Some(x) => x,
        };
        out.push(x);
        proof {
            assert(out.deep_view() =~= pre.push(x.deep_view()));
            lemma_concat_map_push(pre, f, x.deep_view());
            lemma_parts(data@, p0 + 8, concat_map(pre, f), f(x.deep_view()));
            assert forall|lm: Seq<IncModel>|
                starts_with(data@, p0, #[trigger] enc_inc_list(lm)) implies out.deep_view()
                == lm.take(i as int + 1) by {
                lemma_parts(data@, p0, enc_u64(lm.len() as u64), concat_map(lm, f));
                lemma_concat_map_split(lm, f, i as int);
                lemma_parts(
                    data@,
                    p0 + 8,
                    concat_map(lm.take(i as int), f),
                    f(lm[i as int]) + concat_map(lm.skip(i as int + 1), f),
                );
                lemma_parts(
                    data@,
                    p0 + 8 + concat_map(lm.take(i as int), f).len(),
                    f(lm[i as int]),
                    concat_map(lm.skip(i as int + 1), f),
                );
                assert(concat_map(lm, f) =~= concat_map(lm.take(i as int), f) + (f(lm[i as int])
                    + concat_map(lm.skip(i as int + 1), f)));
                assert(starts_with(data@, q - enc_inc(lm[i as int]).len(), enc_inc(
                    lm[i as int],
                )));
                assert(x.deep_view() == lm[i as int]);
                assert(lm.take(i as int).push(lm[i as int]) =~= lm.take(i as int + 1));
            }
        }
        i = i + 1;
    }
    proof {
        assert(out.deep_view().len() == n);
        lemma_parts(data@, p0, enc_u64(n), concat_map(out.deep_view(), f));
        assert(starts_with(data@, p0, enc_inc_list(out.deep_view())));
        assert forall|lm: Seq<IncModel>|
            starts_with(data@, p0, #[trigger] enc_inc_list(lm)) implies lm
            == out.deep_view() by {
            lemma_parts(data@, p0, enc_u64(lm.len() as u64), concat_map(lm, f));
            assert(forall|x: IncModel| (#[trigger] f(x)).len() >= 1);
            lemma_concat_map_min_len(lm, f);
            assert(lm.len() <= data@.len());
            assert(lm.len() == n);
            assert(out.deep_view() == lm.take(lm.len() as int));
            assert(lm.take(lm.len() as int) =~= lm);
        }
    }
    *pos = q;
    Some(out)
}

#[verifier::rlimit(100)]
#[verifier::spinoff_prover]
fn dec_symbol_list(data: &[u8], pos: &mut usize) -> (r: Option<Vec<SymbolInfo>>)
    requires
        *old(pos) <= data@.len(),
    ensures
        r matches Some(v) ==> *final(pos) == *old(pos) + enc_symbol_list(v.deep_view()).len()
            && starts_with(data@, *old(pos) as int, enc_symbol_list(v.deep_view())),
        forall|lm: Seq<SymbolModel>|
            starts_with(data@, *old(pos) as int, #[trigger] enc_symbol_list(lm)) ==> (r matches Some(
                v,
            ) && v.deep_view() == lm && *final(pos) == *old(pos) + enc_symbol_list(lm).len()),
{
    let ghost p0 = *pos as int;
    let ghost f = (|x: SymbolModel| enc_symbol(x));
    let mut q = *pos;
    let n = match dec_u64(data, &mut q) {
        None => {
            proof {
                assert forall|lm: Seq<SymbolModel>|
                    !starts_with(data@, p0, #[trigger] enc_symbol_list(lm)) by {
                    if starts_with(data@, p0, enc_symbol_list(lm)) {
                        lemma_parts(data@, p0, enc_u64(lm.len() as u64), concat_map(lm, f));
                    }
                }
            }
            return None;
        },
        Some(n) => n,
    };
    proof {
        assert forall|lm: Seq<SymbolModel>|
            starts_with(data@, p0, #[trigger] enc_symbol_list(lm)) implies lm.len() as u64 == n
            && starts_with(data@, p0 + 8, concat_map(lm, f)) by {
            lemma_parts(data@, p0, enc_u64(lm.len() as u64), concat_map(lm, f));
        }
    }
    if n > (data.len() - q) as u64 {
        proof {
            assert forall|lm: Seq<SymbolModel>|
                !starts_with(data@, p0, #[trigger] enc_symbol_list(lm)) by {
                if starts_with(data@, p0, enc_symbol_list(lm)) {
                    assert(forall|x: SymbolModel| (#[trigger] f(x)).len() >= 1);
                    lemma_concat_map_min_len(lm, f);
                }
            }
        }
        return None;
    }
    let mut out: Vec<SymbolInfo> = Vec::new();
    let mut i: u64 = 0;
    proof {
        assert(out.deep_view() =~= Seq::<SymbolModel>::empty());
        assert(concat_map(out.deep_view(), f) =~= Seq::<u8>::empty());
        assert(data@.subrange(p0 + 8, p0 + 8) =~= Seq::<u8>::empty());
    }
    while i < n
        invariant
            *old(pos) <= data@.len(),
            p0 == *old(pos) as int,
            f == (|x: SymbolModel| enc_symbol(x)),
            i == out.deep_view().len(),
            i <= n,
            p0 + 8 <= q <= data@.len(),
            starts_with(data@, p0 + 8, concat_map(out.deep_view(), f)),
            q == p0 + 8 + concat_map(out.deep_view(), f).len(),
            forall|lm: Seq<SymbolModel>|
                starts_with(data@, p0, #[trigger] enc_symbol_list(lm)) ==> (lm.len() as u64 == n
                    && out.deep_view() == lm.take(i as int)),
        decreases n - i,
    {
        let ghost pre = out.deep_view();
        let x = match dec_symbol(data, &mut q) {
            None => {
                proof {
                    assert forall|lm: Seq<SymbolModel>|
                        !starts_with(data@, p0, #[trigger] enc_symbol_list(lm)) by {
                        if starts_with(data@, p0, enc_symbol_list(lm)) {
                            lemma_parts(data@, p0, enc_u64(lm.len() as u64), concat_map(lm, f));
                            lemma_concat_map_split(lm, f, i as int);
                            lemma_parts(
                                data@,
                                p0 + 8,
                                concat_map(lm.take(i as int), f),
                                f(lm[i as int]) + concat_map(lm.skip(i as int + 1), f),
                            );
                            lemma_parts(
                                data@,
                                p0 + 8 + concat_map(lm.take(i as int), f).len(),
                                f(lm[i as int]),
                                concat_map(lm.skip(i as int + 1), f),
                            );
                            assert(concat_map(lm, f) =~= concat_map(lm.take(i as int), f) + (f(
                                lm[i as int],
                            ) + concat_map(lm.skip(i as int + 1), f)));
                            assert(starts_with(data@, q as int, enc_symbol(lm[i as int])));
                        }
                    }
                }
                return None;
            },
            Some(x) => x,
        };
        out.push(x);
        proof {
            assert(out.deep_view() =~= pre.push(x.deep_view()));
            lemma_concat_map_push(pre, f, x.deep_view());
            lemma_parts(data@, p0 + 8, concat_map(pre, f), f(x.deep_view()));
            assert forall|lm: Seq<SymbolModel>|
                starts_with(data@, p0, #[trigger] enc_symbol_list(lm)) implies out.deep_view()
                == lm.take(i as int + 1) by {
                lemma_parts(data@, p0, enc_u64(lm.len() as u64), concat_map(lm, f));
                lemma_concat_map_split(lm, f, i as int);
                lemma_parts(
                    data@,
                    p0 + 8,
                    concat_map(lm.take(i as int), f),
                    f(lm[i as int]) + concat_map(lm.skip(i as int + 1), f),
                );
                lemma_parts(
                    data@,
                    p0 + 8 + concat_map(lm.take(i as int), f).len(),
                    f(lm[i as int]),
                    concat_map(lm.skip(i as int + 1), f),
                );
                assert(concat_map(lm, f) =~= concat_map(lm.take(i as int), f) + (f(lm[i as int])
                    + concat_map(lm.skip(i as int + 1), f)));
                assert(starts_with(data@, q - enc_symbol(lm[i as int]).len(), enc_symbol(
                    lm[i as int],
                )));
                assert(x.deep_view() == lm[i as int]);
                assert(lm.take(i as int).push(lm[i as int]) =~= lm.take(i as int + 1));
            }
        }
        i = i + 1;
    }
    proof {
        assert(out.deep_view().len() == n);
        lemma_parts(data@, p0, enc_u64(n), concat_map(out.deep_view(), f));
        assert(starts_with(data@, p0, enc_symbol_list(out.deep_view())));
        assert forall|lm: Seq<SymbolModel>|
            starts_with(data@, p0, #[trigger] enc_symbol_list(lm)) implies lm
            == out.deep_view() by {
            lemma_parts(data@, p0, enc_u64(lm.len() as u64), concat_map(lm, f));
            assert(forall|x: SymbolModel| (#[trigger] f(x)).len() >= 1);
            lemma_concat_map_min_len(lm, f);
            assert(lm.len() <= data@.len());
            assert(lm.len() == n);
            assert(out.deep_view() == lm.take(lm.len() as int));
            assert(lm.take(lm.len() as int) =~= lm);
        }
    }
    *pos = q;
    Some(out)
}


#[verifier::rlimit(100)]
#[verifier::spinoff_prover]
proof fn body_parts(data: Seq<u8>, p0: int, m: RecordModel, fmt: WireFormat)
    requires
        0 <= p0,
        starts_with(data, p0, enc_body(m, fmt)),
    ensures
        fmt is Primary ==> starts_with(data, p0, enc_i64(m.period)) && starts_with(
            data,
            p0 + 9,
            enc_i64(m.ts),
        ) && starts_with(data, p0 + 18, enc_i64(m.post_ts)) && starts_with(
            data,
            p0 + 27,
            enc_str(m.poster_id),
        ) && starts_with(
            data,
            p0 + 27 + enc_str(m.poster_id).len() as int,
            enc_symbol_list(m.symbol_infos),
        ),
        fmt is Legacy ==> starts_with(data, p0, enc_str(m.poster_id)) && starts_with(
            data,
            p0 + enc_str(m.poster_id).len() as int,
            enc_i64(m.period),
        ) && starts_with(data, p0 + 9 + enc_str(m.poster_id).len() as int, enc_i64(m.ts))
            && starts_with(data, p0 + 18 + enc_str(m.poster_id).len() as int, enc_i64(m.post_ts))
            && starts_with(
            data,
            p0 + 27 + enc_str(m.poster_id).len() as int,
            enc_symbol_list(m.symbol_infos),
        ),
        enc_body(m, fmt).len() == 27 + enc_str(m.poster_id).len() + enc_symbol_list(
            m.symbol_infos,
        ).len(),
{
    let p = enc_i64(m.period);
    let s = enc_i64(m.ts);
    let o = enc_i64(m.post_ts);
    let id = enc_str(m.poster_id);
    let sy = enc_symbol_list(m.symbol_infos);
    match fmt {
        WireFormat::Primary => {
            assert(enc_body(m, fmt) =~= p + (s + (o + (id + sy))));
            lemma_parts(data, p0, p, s + (o + (id + sy)));
            lemma_parts(data, p0 + 9, s, o + (id + sy));
            lemma_parts(data, p0 + 18, o, id + sy);
            lemma_parts(data, p0 + 27, id, sy);
        },
        WireFormat::Legacy => {
            assert(enc_body(m, fmt) =~= id + (p + (s + (o + sy))));
            lemma_parts(data, p0, id, p + (s + (o + sy)));
            lemma_parts(data, p0 + id.len() as int, p, s + (o + sy));
            lemma_parts(data, p0 + 9 + id.len() as int, s, o + sy);
            lemma_parts(data, p0 + 18 + id.len() as int, o, sy);
        },
    }
}

#[verifier::rlimit(100)]
#[verifier::spinoff_prover]
proof fn body_join(data: Seq<u8>, p0: int, m: RecordModel, fmt: WireFormat)
    requires
        0 <= p0,
        fmt is Primary ==> starts_with(data, p0, enc_i64(m.period)) && starts_with(
            data,
            p0 + 9,
            enc_i64(m.ts),
        ) && starts_with(data, p0 + 18, enc_i64(m.post_ts)) && starts_with(
            data,
            p0 + 27,
            enc_str(m.poster_id),
        ) && starts_with(
            data,
            p0 + 27 + enc_str(m.poster_id).len() as int,
            enc_symbol_list(m.symbol_infos),
        ),
        fmt is Legacy ==> starts_with(data, p0, enc_str(m.poster_id)) && starts_with(
            data,
            p0 + enc_str(m.poster_id).len() as int,
            enc_i64(m.period),
        ) && starts_with(data, p0 + 9 + enc_str(m.poster_id).len() as int, enc_i64(m.ts))
            && starts_with(data, p0 + 18 + enc_str(m.poster_id).len() as int, enc_i64(m.post_ts))
            && starts_with(
            data,
            p0 + 27 + enc_str(m.poster_id).len() as int,
            enc_symbol_list(m.symbol_infos),
        ),
    ensures
        starts_with(data, p0, enc_body(m, fmt)),
        enc_body(m, fmt).len() == 27 + enc_str(m.poster_id).len() + enc_symbol_list(
            m.symbol_infos,
        ).len(),
{
    let p = enc_i64(m.period);
    let s = enc_i64(m.ts);
    let o = enc_i64(m.post_ts);
    let id = enc_str(m.poster_id);
    let sy = enc_symbol_list(m.symbol_infos);
    match fmt {
        WireFormat::Primary => {
            lemma_parts(data, p0 + 27, id, sy);
            lemma_parts(data, p0 + 18, o, id + sy);
            lemma_parts(data, p0 + 9, s, o + (id + sy));
            lemma_parts(data, p0, p, s + (o + (id + sy)));
            assert(enc_body(m, fmt) =~= p + (s + (o + (id + sy))));
        },
        WireFormat::Legacy => {
            lemma_parts(data, p0 + 18 + id.len() as int, o, sy);
            lemma_parts(data, p0 + 9 + id.len() as int, s, o + sy);
            lemma_parts(data, p0 + id.len() as int, p, s + (o + sy));
            lemma_parts(data, p0, id, p + (s + (o + sy)));
            assert(enc_body(m, fmt) =~= id + (p + (s + (o + sy))));
        },
    }
}

proof fn body_parts_p(data: Seq<u8>, p0: int, m: RecordModel)
    requires
        0 <= p0,
        starts_with(data, p0, enc_body(m, WireFormat::Primary)),
    ensures
        starts_with(data, p0, enc_i64(m.period)),
        starts_with(data, p0 + 9, enc_i64(m.ts)),
        starts_with(data, p0 + 18, enc_i64(m.post_ts)),
        starts_with(data, p0 + 27, enc_str(m.poster_id)),
        starts_with(
            data,
            p0 + 27 + enc_str(m.poster_id).len() as int,
            enc_symbol_list(m.symbol_infos),
        ),
        enc_body(m, WireFormat::Primary).len() == 27 + enc_str(m.poster_id).len()
            + enc_symbol_list(m.symbol_infos).len(),
{
    body_parts(data, p0, m, WireFormat::Primary);
}

proof fn body_parts_l(data: Seq<u8>, p0: int, m: RecordModel)
    requires
        0 <= p0,
        starts_with(data, p0, enc_body(m, WireFormat::Legacy)),
    ensures
        starts_with(data, p0, enc_str(m.poster_id)),
        starts_with(data, p0 + enc_str(m.poster_id).len() as int, enc_i64(m.period)),
        starts_with(data, p0 + 9 + enc_str(m.poster_id).len() as int, enc_i64(m.ts)),
        starts_with(data, p0 + 18 + enc_str(m.poster_id).len() as int, enc_i64(m.post_ts)),
        starts_with(
            data,
            p0 + 27 + enc_str(m.poster_id).len() as int,
            enc_symbol_list(m.symbol_infos),
        ),
        enc_body(m, WireFormat::Legacy).len() == 27 + enc_str(m.poster_id).len() + enc_symbol_list(
            m.symbol_infos,
        ).len(),
{
    body_parts(data, p0, m, WireFormat::Legacy);
}

#[verifier::rlimit(100)]
#[verifier::spinoff_prover]
fn dec_body_primary(data: &[u8], pos: &mut usize) -> (r: Option<PeriodMessage>)
    requires
        *old(pos) <= data@.len(),
    ensures
        r matches Some(v) ==> *final(pos) == *old(pos) + enc_body(
            v.deep_view(),
            WireFormat::Primary,
        ).len() && starts_with(
            data@,
            *old(pos) as int,
            enc_body(v.deep_view(), WireFormat::Primary),
        ),
        forall|m: RecordModel|
            starts_with(data@, *old(pos) as int, #[trigger] enc_body(m, WireFormat::Primary))
                ==> (r matches Some(v) && v.deep_view() == m && *final(pos) == *old(pos) + enc_body(
                m,
                WireFormat::Primary,
            ).len()),
{
    let ghost p0 = *pos as int;
    let ghost fmt = WireFormat::Primary;
    proof {
        assert forall|m: RecordModel|
            starts_with(data@, p0, #[trigger] enc_body(m, WireFormat::Primary)) implies (
        starts_with(data@, p0, enc_i64(m.period)) && starts_with(data@, p0 + 9, enc_i64(m.ts))
            && starts_with(data@, p0 + 18, enc_i64(m.post_ts)) && starts_with(
            data@,
            p0 + 27,
            enc_str(m.poster_id),
        ) && starts_with(
            data@,
            p0 + 27 + enc_str(m.poster_id).len() as int,
            enc_symbol_list(m.symbol_infos),
        ) && enc_body(m, WireFormat::Primary).len() == 27 + enc_str(m.poster_id).len()
            + enc_symbol_list(m.symbol_infos).len()) by {
            body_parts_p(data@, p0, m);
        }
    }
    let mut q = *pos;
    let period = match dec_i64(data, &mut q) {
        None => {
            proof {
                assert(forall|m: RecordModel|
                    !starts_with(data@, p0, #[trigger] enc_body(m, fmt)));
            }
            return None;
        },
        Some(x) => x,
    };
    let ts = match dec_i64(data, &mut q) {
        None => {
            proof {
                assert(forall|m: RecordModel|
                    !starts_with(data@, p0, #[trigger] enc_body(m, fmt)));
            }
            return None;
        },
        Some(x) => x,
    };
    let post_ts = match dec_i64(data, &mut q) {
        None => {
            proof {
                assert(forall|m: RecordModel|
                    !starts_with(data@, p0, #[trigger] enc_body(m, fmt)));
            }
            return None;
        },
        Some(x) => x,
    };
    let poster_id = match dec_string(data, &mut q) {
        None => {
            proof {
                assert(forall|m: RecordModel|
                    !starts_with(data@, p0, #[trigger] enc_body(m, fmt)));
            }
            return None;
        },
        Some(x) => x,
    };
    let symbol_infos = match dec_symbol_list(data, &mut q) {
        None => {
            proof {
                assert(forall|m: RecordModel|
                    !starts_with(data@, p0, #[trigger] enc_body(m, fmt)));
            }
            return None;
        },
        Some(x) => x,
    };
    let v = PeriodMessage { period, ts, post_ts, poster_id, symbol_infos };
    proof {
        body_join(data@, p0, v.deep_view(), WireFormat::Primary);
        assert forall|m: RecordModel| starts_with(data@, p0, #[trigger] enc_body(m, fmt)) implies v
            .deep_view() == m by {
        }
    }
    *pos = q;
    Some(v)
}

#[verifier::rlimit(100)]
#[verifier::spinoff_prover]
fn dec_body_legacy(data: &[u8], pos: &mut usize) -> (r: Option<PeriodMessage>)
    requires
        *old(pos) <= data@.len(),
    ensures
        r matches Some(v) ==> *final(pos) == *old(pos) + enc_body(
            v.deep_view(),
            WireFormat::Legacy,
        ).len() && starts_with(
            data@,
            *old(pos) as int,
            enc_body(v.deep_view(), WireFormat::Legacy),
        ),
        forall|m: RecordModel|
            starts_with(data@, *old(pos) as int, #[trigger] enc_body(m, WireFormat::Legacy)) ==> (
            r matches Some(v) && v.deep_view() == m && *final(pos) == *old(pos) + enc_body(
                m,
                WireFormat::Legacy,
            ).len()),
{
    let ghost p0 = *pos as int;
    let ghost fmt = WireFormat::Legacy;
    let mut q = *pos;
    let poster_id = match dec_string(data, &mut q) {
        None => {
            proof {
                assert forall|m: RecordModel| !starts_with(data@, p0, #[trigger] enc_body(m, fmt)) by {
                    if starts_with(data@, p0, enc_body(m, fmt)) {
                        body_parts_l(data@, p0, m);
                    }
                }
            }
            return None;
        },
        Some(x) => x,
    };
    let period = match dec_i64(data, &mut q) {
        None => {
            proof {
                assert forall|m: RecordModel| !starts_with(data@, p0, #[trigger] enc_body(m, fmt)) by {
                    if starts_with(data@, p0, enc_body(m, fmt)) {
                        body_parts_l(data@, p0, m);
                    }
                }
            }
            return None;
        },
        Some(x) => x,
    };
    let ts = match dec_i64(data, &mut q) {
        None => {
            proof {
                assert forall|m: RecordModel| !starts_with(data@, p0, #[trigger] enc_body(m, fmt)) by {
                    if starts_with(data@, p0, enc_body(m, fmt)) {
                        body_parts_l(data@, p0, m);
                    }
                }
            }
            return None;
        },
        Some(x) => x,
    };
    let post_ts = match dec_i64(data, &mut q) {
        None => {
            proof {
                assert forall|m: RecordModel| !starts_with(data@, p0, #[trigger] enc_body(m, fmt)) by {
                    if starts_with(data@, p0, enc_body(m, fmt)) {
                        body_parts_l(data@, p0, m);
                    }
                }
            }
            return None;
        },
        Some(x) => x,
    };
    let symbol_infos = match dec_symbol_list(data, &mut q) {
        None => {
            proof {
                assert forall|m: RecordModel| !starts_with(data@, p0, #[trigger] enc_body(m, fmt)) by {
                    if starts_with(data@, p0, enc_body(m, fmt)) {
                        body_parts_l(data@, p0, m);
                    }
                }
            }
            return None;
        },
        Some(x) => x,
    };
    let v = PeriodMessage { period, ts, post_ts, poster_id, symbol_infos };
    proof {
        body_join(data@, p0, v.deep_view(), WireFormat::Legacy);
        assert forall|m: RecordModel| starts_with(data@, p0, #[trigger] enc_body(m, fmt)) implies v
            .deep_view() == m by {
            body_parts_l(data@, p0, m);
        }
    }
    *pos = q;
    Some(v)
}

/// How a decode result must relate to the bytes it was given: a returned
/// record is one the bytes encode, every encoded record is returned, and
/// anything else is a format error.
pub open spec fn decode_rel(
    bytes: Seq<u8>,
    fmt: WireFormat,
    r: Result<PeriodMessage, DecodeError>,
) -> bool {
    &&& (r matches Ok(m) ==> bytes == enc_record(m.deep_view(), fmt))
    &&& (forall|vm: RecordModel|
        bytes == #[trigger] enc_record(vm, fmt) ==> (r matches Ok(m) && m.deep_view() == vm))
    &&& (r matches Err(e) ==> e == DecodeError::FormatError)
}


/// The round-trip law: decoding what `encode` produced reproduces the
/// record exactly, for both formats and both compression states.  By
/// `encode`'s contract the envelope is `enc_record(m, fmt)`, or its
/// compression, and by `decode`'s contract any result for such bytes
/// satisfies `decode_rel` on `enc_record(m, fmt)`; this lemma closes the
/// loop: such a result can only be `Ok` with the original record.
pub proof fn lemma_decode_reproduces_record(
    vm: RecordModel,
    fmt: WireFormat,
    r: Result<PeriodMessage, DecodeError>,
)
    requires
        decode_rel(enc_record(vm, fmt), fmt, r),
    ensures
        r matches Ok(m) && m.deep_view() == vm,
{
}

fn parse_record(data: &[u8], fmt: WireFormat) -> (r: Result<PeriodMessage, DecodeError>)
    ensures
        decode_rel(data@, fmt, r),
{
    let ghost g = data@;
    proof {
        assert forall|vm: RecordModel|
            g == #[trigger] enc_record(vm, fmt) implies starts_with(g, 0, seq![format_tag(fmt)])
            && starts_with(g, 1, enc_body(vm, fmt)) && g.len() == 1 + enc_body(vm, fmt).len() by {
            assert(g.subrange(0, enc_record(vm, fmt).len() as int) =~= enc_record(vm, fmt));
            lemma_parts(g, 0, seq![format_tag(fmt)], enc_body(vm, fmt));
        }
    }
    if data.len() < 1 {
        return Err(DecodeError::FormatError);
    }
    let tag = data[0];
    let expected: u8 = match fmt {
        WireFormat::Primary => 1,
        WireFormat::Legacy => 0,
    };
    if tag != expected {
        proof {
            assert forall|vm: RecordModel| g != #[trigger] enc_record(vm, fmt) by {
                if g == enc_record(vm, fmt) {
                    assert(g.subrange(0, 1)[0] == seq![format_tag(fmt)][0]);
                }
            }
        }
        return Err(DecodeError::FormatError);
    }
    let mut q: usize = 1;
    let parsed = match fmt {
        WireFormat::Primary => dec_body_primary(data, &mut q),
        WireFormat::Legacy => dec_body_legacy(data, &mut q),
    };
    let v = match parsed {
        None => {
            return Err(DecodeError::FormatError);
        },
        Some(v) => v,
    };
    if q != data.len() {
        return Err(DecodeError::FormatError);
    }
    proof {
        lemma_parts(g, 0, seq![format_tag(fmt)], enc_body(v.deep_view(), fmt));
        assert(g.subrange(0, 1) =~= seq![format_tag(fmt)]);
        assert(g =~= g.subrange(0, g.len() as int));
        assert(g == enc_record(v.deep_view(), fmt)) by {
            assert(starts_with(g, 0, enc_record(v.deep_view(), fmt)));
            assert(g =~= enc_record(v.deep_view(), fmt));
        }
    }
    Ok(v)
}

/// The bytes that the zlib compressor produces for a given input; they
/// depend on the input alone.
pub uninterp spec fn zlib_of(b: Seq<u8>) -> Seq<u8>;

/// Relies on flate2's `write::ZlibEncoder` at the default level: a pure
/// function of the input bytes.  Writing into a `Vec` sink cannot fail.
#[verifier::external_body]
fn zlib_compress(b: &[u8]) -> (r: Vec<u8>)
    ensures
        r@ == zlib_of(b@),
{
    let mut enc = flate2::write::ZlibEncoder::new(Vec::new(), flate2::Compression::default());
    let _ = enc.write_all(b);
    enc.finish().expect("writing into a Vec cannot fail")
}

/// Relies on flate2's `read::ZlibDecoder`: inflating what the encoder
/// produced gives back exactly the original bytes.
#[verifier::external_body]
fn zlib_decompress(b: &[u8]) -> (r: Option<Vec<u8>>)
    ensures
        r matches Some(d) ==> forall|orig: Seq<u8>|
            b@ == #[trigger] zlib_of(orig) ==> d@ == orig,
        r is None ==> forall|orig: Seq<u8>| b@ != #[trigger] zlib_of(orig),
{
    let mut dec = flate2::read::ZlibDecoder::new(b);
    let mut out = Vec::new();
    match dec.read_to_end(&mut out) {
        Ok(_) => Some(out),
        Err(_) => None,
    }
}

/// The completeness metric of a capture: the count of trade entries plus
/// incremental-update entries across all symbols.
pub open spec fn sym_count(s: SymbolModel) -> int {
    s.trades.len() as int + s.incs.len() as int
}

/// The metric summed over a list of symbol captures.
pub open spec fn info_count_of(syms: Seq<SymbolModel>) -> int
    decreases syms.len(),
{
    if syms.len() == 0 {
        0
    } else {
        info_count_of(syms.drop_last()) + sym_count(syms.last())
    }
}

proof fn lemma_info_count_nonneg(s: Seq<SymbolModel>)
    ensures
        info_count_of(s) >= 0,
    decreases s.len(),
{
    if s.len() > 0 {
        lemma_info_count_nonneg(s.drop_last());
    }
}

/// `x` clipped to the range of a 64-bit counter.
pub open spec fn capped(x: int) -> u64 {
    if x > u64::MAX {
        u64::MAX
    } else {
        x as u64
    }
}

fn sat_add_u64(a: u64, b: u64) -> (r: u64)
    ensures
        r == capped(a + b),
{
    if u64::MAX - a < b {
        u64::MAX
    } else {
        a + b
    }
}

impl PeriodMessage {
    /// The completeness metric of this record, derived from the record
    /// alone; the compaction engine compares revisions of a period by it.
    pub fn total_info_count(&self) -> (r: u64)
        ensures
            r == capped(info_count_of(self@.symbol_infos)),
    {
        let mut acc: u64 = 0;
        let mut i: usize = 0;
        let ghost syms = self@.symbol_infos;
        proof {
            assert(syms.take(0int) =~= Seq::<SymbolModel>::empty());
        }
        while i < self.symbol_infos.len()
            invariant
                i <= self.symbol_infos@.len(),
                syms == self@.symbol_infos,
                syms.len() == self.symbol_infos@.len(),
                acc == capped(info_count_of(syms.take(i as int))),
            decreases self.symbol_infos@.len() - i,
        {
            let s = &self.symbol_infos[i];
            let here = sat_add_u64(s.trades.len() as u64, s.incs.len() as u64);
            acc = sat_add_u64(acc, here);
            proof {
                lemma_info_count_nonneg(syms.take(i as int));
                lemma_info_count_nonneg(syms.take(i + 1));
                assert(syms.take(i + 1).drop_last() =~= syms.take(i as int));
                assert(syms.take(i + 1).last() == syms[i as int]);
                assert(syms[i as int].trades.len() == self.symbol_infos@[i as int].trades@.len());
                assert(syms[i as int].incs.len() == self.symbol_infos@[i as int].incs@.len());
            }
            i += 1;
        }
        proof {
            assert(syms.take(syms.len() as int) =~= syms);
        }
        acc
    }

    /// Lays this record down in the chosen format, compressing the
    /// result when asked to.
    pub fn encode(&self, compressed: bool, format: WireFormat) -> (r: Vec<u8>)
        ensures
            !compressed ==> r@ == enc_record(self@, format),
            compressed ==> r@ == zlib_of(enc_record(self@, format)),
    {
        let body = encode_record(self, format);
        if compressed {
            zlib_compress(body.as_slice())
        } else {
            body
        }
    }

    /// Reads a record back from an envelope.  The compression flag is
    /// honored literally and the format is the caller's choice; nothing
    /// is inferred from the bytes.
    pub fn decode(data: &[u8], compressed: bool, format: WireFormat) -> (r: Result<
        PeriodMessage,
        DecodeError,
    >)
        ensures
            !compressed ==> decode_rel(data@, format, r),
            compressed ==> forall|orig: Seq<u8>|
                data@ == #[trigger] zlib_of(orig) ==> decode_rel(orig, format, r),
    {
        if compressed {
            match zlib_decompress(data) {
                None => Err(DecodeError::DecompressionError),
                Some(d) => parse_record(d.as_slice(), format),
            }
        } else {
            parse_record(data, format)
        }
    }
}

/// Lays a record down in the chosen format, without compression.
#[verifier::rlimit(100)]
#[verifier::spinoff_prover]
fn encode_record(m: &PeriodMessage, fmt: WireFormat) -> (r: Vec<u8>)
    ensures
        r@ == enc_record(m.deep_view(), fmt),
{
    let mut out: Vec<u8> = Vec::new();
    match fmt {
        WireFormat::Primary => {
            out.push(1u8);
            push_i64(&mut out, m.period);
            push_i64(&mut out, m.ts);
            push_i64(&mut out, m.post_ts);
            push_str(&mut out, self_str(&m.poster_id));
            push_symbol_list(&mut out, &m.symbol_infos);
        },
        WireFormat::Legacy => {
            out.push(0u8);
            push_str(&mut out, self_str(&m.poster_id));
            push_i64(&mut out, m.period);
            push_i64(&mut out, m.ts);
            push_i64(&mut out, m.post_ts);
            push_symbol_list(&mut out, &m.symbol_infos);
        },
    }
    proof {
        assert(out@ =~= enc_record(m.deep_view(), fmt));
    }
    out
}

} // verus!
