use vstd::prelude::*;
use crate::level::LevelId;
use crate::order::Order;
use crate::price::Price;
use crate::quantity::Qty;
use crate::utils::{name_hash, BookId};

verus! {

#[verifier::external_type_specification]
#[verifier::external_body]
pub struct ExFromHexError(hex::FromHexError);

/// Why a submission was refused at intake.
#[derive(Debug, Clone, Copy, PartialEq, Eq, Structural)]
pub enum OrderIntakeError {
    InvalidQuantity,
    InvalidPrice,
    InvalidBookId,
    InvalidTrader,
    InvalidSignature,
    InvalidNonce,
}

/// The value of an ASCII hex digit of either case.
pub open spec fn hex_digit(b: u8) -> Option<u8> {
    if 48 <= b <= 57 {
        Some((b - 48) as u8)
    } else if 97 <= b <= 102 {
        Some((b - 87) as u8)
    } else if 65 <= b <= 70 {
        Some((b - 55) as u8)
    } else {
        None
    }
}

/// An even number of hex digits.
pub open spec fn is_hex(s: Seq<u8>) -> bool {
    &&& s.len() % 2 == 0
    &&& forall|i: int| 0 <= i < s.len() ==> (#[trigger] hex_digit(s[i])) is Some
}

/// The bytes that pairs of hex digits spell, high digit first.
pub open spec fn hex_bytes(s: Seq<u8>) -> Seq<u8> {
    Seq::new(
        (s.len() / 2) as nat,
        |i: int| (hex_digit(s[2 * i])->0 * 16 + hex_digit(s[2 * i + 1])->0) as u8,
    )
}

/// `s` without its leading run of `0x` prefixes.
pub open spec fn strip_0x(s: Seq<u8>) -> Seq<u8>
    decreases s.len(),
{
    if s.len() >= 2 && s[0] == 48 && s[1] == 120 {
        strip_0x(s.subrange(2, s.len() as int))
    } else {
        s
    }
}

/// The UTF-8 bytes of a text.
pub open spec fn text_bytes(s: Seq<char>) -> Seq<u8> {
    vstd::utf8::encode_utf8(s)
}

/// `b` zero-padded to 65 bytes.
pub open spec fn pad65(b: Seq<u8>) -> Seq<u8> {
    Seq::new(65, |i: int| if i < b.len() { b[i] } else { 0u8 })
}

/// Relies on hex::decode (hex 0.4): it fails on an odd number of digits or
/// on a byte that is no hex digit, and otherwise gives one byte per pair of
/// digits, high digit first.
#[verifier::external_body]
fn decode_hex(digits: &[u8]) -> (r: Result<Vec<u8>, hex::FromHexError>)
    ensures
        r is Ok <==> is_hex(digits@),
        r matches Ok(v) ==> v@ == hex_bytes(digits@),
{
    hex::decode(digits)
}

/// Copies `b` without its leading run of `0x` prefixes.
fn without_0x(b: &[u8]) -> (r: Vec<u8>)
    ensures
        r@ == strip_0x(b@),
{
    let mut k: usize = 0;
    proof {
        assert(b@.subrange(0, b@.len() as int) =~= b@);
    }
    while k < b.len() && b.len() - k >= 2 && b[k] == 48 && b[k + 1] == 120
        invariant
            k <= b@.len(),
            strip_0x(b@.subrange(k as int, b@.len() as int)) == strip_0x(b@),
        decreases b@.len() - k,
    {
        proof {
            let t = b@.subrange(k as int, b@.len() as int);
            assert(t.subrange(2, t.len() as int) =~= b@.subrange(k + 2, b@.len() as int));
        }
        k += 2;
    }
    let mut out: Vec<u8> = Vec::new();
    let mut i: usize = k;
    while i < b.len()
        invariant
            k <= i <= b@.len(),
            out@ == b@.subrange(k as int, i as int),
        decreases b@.len() - i,
    {
        out.push(b[i]);
        proof {
            assert(out@ =~= b@.subrange(k as int, i + 1));
        }
        i += 1;
    }
    proof {
        let t = b@.subrange(k as int, b@.len() as int);
        assert(!(t.len() >= 2 && t[0] == 48 && t[1] == 120));
        assert(out@ == t);
    }
    out
}

/// Decodes a hex text that may carry `0x` prefixes.
fn decode_hex_text(s: &String) -> (r: Option<Vec<u8>>)
    ensures
        r is Some <==> is_hex(strip_0x(text_bytes(s@))),
        r matches Some(v) ==> v@ == hex_bytes(strip_0x(text_bytes(s@))),
{
    let digits = without_0x(s.as_str().as_bytes());
    match decode_hex(digits.as_slice()) {
        Ok(v) => Some(v),
        Err(_) => None,
    }
}

/// A submission as it comes from outside the engine.
#[derive(Debug)]
pub struct OrderSubmission {
    pub book_id: String,
    pub price: i32,
    pub quantity: u32,
    pub trader: String,
    pub nonce: u64,
    pub expiry: Option<u64>,
    pub signature: String,
}

/// A submission that passed intake: the order to rest, and its stored price.
#[derive(Debug, Clone, Copy)]
pub struct ValidatedOrder {
    pub order: Order,
    pub price: Price,
}

/// The outcome of intake: the first failed check, or the validated order.
pub open spec fn intake_outcome(sub: OrderSubmission, r: Result<ValidatedOrder, OrderIntakeError>) -> bool {
    let t = strip_0x(text_bytes(sub.trader@));
    let s = strip_0x(text_bytes(sub.signature@));
    if sub.quantity == 0 {
        r == Err::<ValidatedOrder, OrderIntakeError>(OrderIntakeError::InvalidQuantity)
    } else if sub.price == 0 {
        r == Err::<ValidatedOrder, OrderIntakeError>(OrderIntakeError::InvalidPrice)
    } else if !(is_hex(t) && t.len() == 40) {
        r == Err::<ValidatedOrder, OrderIntakeError>(OrderIntakeError::InvalidTrader)
    } else if !(is_hex(s) && hex_bytes(s).len() <= 65) {
        r == Err::<ValidatedOrder, OrderIntakeError>(OrderIntakeError::InvalidSignature)
    } else {
        r matches Ok(v) && {
            &&& v.price == Price(sub.price)
            &&& v.order.qty == Qty(sub.quantity)
            &&& v.order.level_id == LevelId(0)
            &&& v.order.book_id == BookId(name_hash(sub.book_id@) as u32)
            &&& v.order.trader matches Some(a) && a@ == hex_bytes(t)
            &&& v.order.nonce == Some(sub.nonce)
            &&& v.order.expiry == Some(
                match sub.expiry {
                    Some(e) => e,
                    None => u64::MAX,
                },
            )
            &&& v.order.signature matches Some(g) && g@ == pad65(hex_bytes(s))
        }
    }
}

impl OrderSubmission {
    /// Validates the submission: quantity and price must be non-zero, the
    /// trader 20 hex-encoded bytes, the signature at most 65 hex-encoded
    /// bytes (zero-padded to 65); an absent expiry means none.
    pub fn into_order(self) -> (r: Result<ValidatedOrder, OrderIntakeError>)
        ensures
            intake_outcome(self, r),
    {
        if self.quantity == 0 {
            return Err(OrderIntakeError::InvalidQuantity);
        }
        if self.price == 0 {
            return Err(OrderIntakeError::InvalidPrice);
        }
        let trader_bytes = match decode_hex_text(&self.trader) {
            Some(v) => v,
            None => {
                return Err(OrderIntakeError::InvalidTrader);
            },
        };
        if trader_bytes.len() != 20 {
            return Err(OrderIntakeError::InvalidTrader);
        }
        let mut trader = [0u8; 20];
        let mut i: usize = 0;
        while i < 20
            invariant
                i <= 20,
                trader_bytes@.len() == 20,
                forall|j: int| 0 <= j < i ==> trader@[j] == trader_bytes@[j],
            decreases 20 - i,
        {
            trader[i] = trader_bytes[i];
            i += 1;
        }
        let sig_bytes = match decode_hex_text(&self.signature) {
            Some(v) => v,
            None => {
                return Err(OrderIntakeError::InvalidSignature);
            },
        };
        if sig_bytes.len() > 65 {
            return Err(OrderIntakeError::InvalidSignature);
        }
        let mut signature = [0u8; 65];
        let mut j: usize = 0;
        while j < 65
            invariant
                j <= 65,
                sig_bytes@.len() <= 65,
                forall|x: int| 0 <= x < j ==> signature@[x] == pad65(sig_bytes@)[x],
                forall|x: int| j <= x < 65 ==> signature@[x] == 0,
            decreases 65 - j,
        {
            if j < sig_bytes.len() {
                signature[j] = sig_bytes[j];
            }
            j += 1;
        }
        proof {
            assert(trader@ =~= trader_bytes@);
            assert(signature@ =~= pad65(sig_bytes@));
        }
        let book_id = match BookId::from_str(self.book_id.as_str()) {
            Ok(b) => b,
            Err(e) => {
                return Err(e);
            },
        };
        let expiry = match self.expiry {
            Some(e) => e,
            None => u64::MAX,
        };
        Ok(
            ValidatedOrder {
                order: Order::new(
                    Qty(self.quantity),
                    LevelId(0),
                    book_id,
                    Some(trader),
                    Some(self.nonce),
                    Some(expiry),
                    Some(signature),
                ),
                price: Price(self.price),
            },
        )
    }
}

/// The intake stage in front of the engine.
pub struct OrderIntake;

impl OrderIntake {
    pub fn new() -> (r: OrderIntake) {
        OrderIntake
    }

    /// Validates a submission; see `OrderSubmission::into_order`.
    pub fn process_submission(&self, submission: OrderSubmission) -> (r: Result<
        ValidatedOrder,
        OrderIntakeError,
    >)
        ensures
            intake_outcome(submission, r),
    {
        submission.into_order()
    }
}

} // verus!
