use vstd::prelude::*;
use crate::market::MarketConfig;
use crate::matching::MatchDetails;
use crate::order::Order;
use crate::quantity::Qty;

verus! {

/// A signature split into its parts, tagged with the market's scheme.
#[derive(Debug, Clone, Copy)]
pub struct SettlementSignature {
    pub signature_type: u8,
    pub v: u8,
    pub r: [u8; 32],
    pub s: [u8; 32],
}

/// A match in the form that settlement consumes.
#[derive(Debug, Clone, Copy)]
pub struct SettlementOrder {
    pub maker_token: [u8; 20],
    pub taker_token: [u8; 20],
    pub maker_amount: u128,
    pub taker_amount: u128,
    pub maker: [u8; 20],
    pub taker: [u8; 20],
    pub fee_recipient: [u8; 20],
    pub pool: [u8; 20],
    pub expiration: u64,
    pub salt: u128,
    pub maker_is_buyer: bool,
    pub maker_signature: SettlementSignature,
    pub taker_signature: SettlementSignature,
}

/// `out` is `sig` split as `r = sig[0..32]`, `s = sig[32..64]`, `v = sig[64]`.
pub open spec fn splits(sig: [u8; 65], sig_type: u8, out: SettlementSignature) -> bool {
    &&& out.signature_type == sig_type
    &&& out.v == sig@[64]
    &&& out.r@ == sig@.subrange(0, 32)
    &&& out.s@ == sig@.subrange(32, 64)
}

/// An order carries the whole authentication tuple.
pub open spec fn authenticated(o: Order) -> bool {
    &&& o.trader is Some
    &&& o.signature is Some
    &&& o.nonce is Some
    &&& o.expiry is Some
}

/// `s` is the settlement record of a fill of `exec_qty` at `exec_price`
/// between two authenticated orders, in market `c`.
pub open spec fn settles(
    maker: Order,
    taker: Order,
    exec_qty: Qty,
    exec_price: u32,
    maker_is_buyer: bool,
    c: MarketConfig,
    s: SettlementOrder,
) -> bool {
    &&& s.maker_token == if maker_is_buyer {
        c.base_token
    } else {
        c.security_token
    }
    &&& s.taker_token == if maker_is_buyer {
        c.security_token
    } else {
        c.base_token
    }
    &&& s.maker_amount == if maker_is_buyer {
        exec_price * exec_qty.0
    } else {
        exec_qty.0 as int
    }
    &&& s.taker_amount == if maker_is_buyer {
        exec_qty.0 as int
    } else {
        exec_price * exec_qty.0
    }
    &&& s.maker == maker.trader->0
    &&& s.taker == taker.trader->0
    &&& s.fee_recipient == c.fee_recipient
    &&& s.pool == c.pool
    &&& s.expiration == maker.expiry->0
    &&& s.salt == maker.nonce->0
    &&& s.maker_is_buyer == maker_is_buyer
    &&& splits(maker.signature->0, c.signature_type, s.maker_signature)
    &&& splits(taker.signature->0, c.signature_type, s.taker_signature)
}

/// Translates one fill; a fill where either order lacks part of its
/// authentication tuple gives `None`.
pub fn translate_to_settlement(
    maker_order: &Order,
    taker_order: &Order,
    exec_qty: Qty,
    exec_price: u32,
    maker_is_buyer: bool,
    market_config: &MarketConfig,
) -> (r: Option<SettlementOrder>)
    ensures
        r is Some <==> authenticated(*maker_order) && authenticated(*taker_order),
        r matches Some(s) ==> settles(
            *maker_order,
            *taker_order,
            exec_qty,
            exec_price,
            maker_is_buyer,
            *market_config,
            s,
        ),
{
    let maker_sig = match maker_order.signature {
        Some(sig) => sig,
        None => {
            return None;
        },
    };
    let taker_sig = match taker_order.signature {
        Some(sig) => sig,
        None => {
            return None;
        },
    };
    let maker = match maker_order.trader {
        Some(t) => t,
        None => {
            return None;
        },
    };
    let taker = match taker_order.trader {
        Some(t) => t,
        None => {
            return None;
        },
    };
    let expiration = match maker_order.expiry {
        Some(e) => e,
        None => {
            return None;
        },
    };
    let nonce = match maker_order.nonce {
        Some(n) => n,
        None => {
            return None;
        },
    };
    if taker_order.nonce.is_none() || taker_order.expiry.is_none() {
        return None;
    }
    let maker_signature = extract_signature(maker_sig, market_config.signature_type);
    let taker_signature = extract_signature(taker_sig, market_config.signature_type);
    let (maker_token, taker_token) = if maker_is_buyer {
        (market_config.base_token, market_config.security_token)
    } else {
        (market_config.security_token, market_config.base_token)
    };
    proof {
        assert(exec_price * exec_qty.0 <= 0xffff_ffff * 0xffff_ffff) by (nonlinear_arith)
            requires
                exec_price <= 0xffff_ffff,
                exec_qty.0 <= 0xffff_ffff,
        ;
    }
    let notional = (exec_price as u128) * (exec_qty.0 as u128);
    let (maker_amount, taker_amount) = if maker_is_buyer {
        (notional, exec_qty.0 as u128)
    } else {
        (exec_qty.0 as u128, notional)
    };
    Some(
        SettlementOrder {
            maker_token,
            taker_token,
            maker_amount,
            taker_amount,
            maker,
            taker,
            fee_recipient: market_config.fee_recipient,
            pool: market_config.pool,
            expiration,
            salt: nonce as u128,
            maker_is_buyer,
            maker_signature,
            taker_signature,
        },
    )
}

/// Splits a 65-byte signature into `r`, `s` and `v`.
pub fn extract_signature(sig: [u8; 65], sig_type: u8) -> (r: SettlementSignature)
    ensures
        splits(sig, sig_type, r),
{
    let mut r = [0u8; 32];
    let mut s = [0u8; 32];
    let mut i: usize = 0;
    while i < 32
        invariant
            i <= 32,
            forall|j: int| 0 <= j < i ==> r@[j] == sig@[j] && s@[j] == sig@[j + 32],
        decreases 32 - i,
    {
        r[i] = sig[i];
        s[i] = sig[i + 32];
        i += 1;
    }
    proof {
        assert(r@ =~= sig@.subrange(0, 32));
        assert(s@ =~= sig@.subrange(32, 64));
    }
    SettlementSignature { signature_type: sig_type, v: sig[64], r, s }
}

/// The fills that translation keeps, in their order.
pub open spec fn kept(ms: Seq<MatchDetails>) -> Seq<MatchDetails>
    decreases ms.len(),
{
    if ms.len() == 0 {
        Seq::empty()
    } else if authenticated(ms.last().maker_order) && authenticated(ms.last().taker_order) {
        kept(ms.drop_last()).push(ms.last())
    } else {
        kept(ms.drop_last())
    }
}

/// Translates a batch of fills in order, dropping those that lack
/// authentication.
pub fn translate_matches(matches: Vec<MatchDetails>, market_config: &MarketConfig) -> (r: Vec<
    SettlementOrder,
>)
    ensures
        r@.len() == kept(matches@).len(),
        forall|i: int|
            0 <= i < r@.len() ==> settles(
                kept(matches@)[i].maker_order,
                kept(matches@)[i].taker_order,
                kept(matches@)[i].exec_qty,
                kept(matches@)[i].exec_price,
                kept(matches@)[i].maker_is_buyer,
                *market_config,
                #[trigger] r@[i],
            ),
{
    let mut out: Vec<SettlementOrder> = Vec::new();
    let n = matches.len();
    let mut k: usize = 0;
    while k < n
        invariant
            n == matches@.len(),
            k <= n,
            out@.len() == kept(matches@.subrange(0, k as int)).len(),
            forall|i: int|
                0 <= i < out@.len() ==> settles(
                    kept(matches@.subrange(0, k as int))[i].maker_order,
                    kept(matches@.subrange(0, k as int))[i].taker_order,
                    kept(matches@.subrange(0, k as int))[i].exec_qty,
                    kept(matches@.subrange(0, k as int))[i].exec_price,
                    kept(matches@.subrange(0, k as int))[i].maker_is_buyer,
                    *market_config,
                    #[trigger] out@[i],
                ),
        decreases n - k,
    {
        let m = &matches[k];
        let t = translate_to_settlement(
            &m.maker_order,
            &m.taker_order,
            m.exec_qty,
            m.exec_price,
            m.maker_is_buyer,
            market_config,
        );
        proof {
            assert(matches@.subrange(0, k + 1).drop_last() =~= matches@.subrange(0, k as int));
        }
        match t {
            Some(s) => {
                out.push(s);
            },
            None => {},
        }
        k += 1;
    }
    proof {
        assert(matches@.subrange(0, n as int) =~= matches@);
    }
    out
}

} // verus!
