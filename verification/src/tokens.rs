//! Coins, tokens and the values that transaction outputs carry.

use vstd::prelude::*;
use crate::primitives::{Amount, H256};

verus! {

/// Identifier of an issued token.
pub type TokenId = H256;

/// Key under which an asset is totalled: `None` for the native coin, the two
/// halves of the token id for a token. Keys are ordered as the assets are:
/// the coin first, then tokens by id.
pub type AssetKey = Option<(u128, u128)>;

/// What a token output does with its token.
#[derive(Debug, Clone, PartialEq, Eq)]
pub enum TokenData {
    /// Moves `amount` of an existing token.
    TokenTransferV1 { token_id: TokenId, amount: Amount },
    /// Creates a new token; its id is derived from the issuing transaction.
    TokenIssuanceV1 {
        token_ticker: Vec<u8>,
        amount_to_issue: Amount,
        number_of_decimals: u8,
        metadata_uri: Vec<u8>,
    },
    /// Destroys `amount_to_burn` of an existing token.
    TokenBurnV1 { token_id: TokenId, amount_to_burn: Amount },
}

/// The value of a transaction output.
#[derive(Debug, Clone, PartialEq, Eq)]
pub enum OutputValue {
    Coin(Amount),
    Token(TokenData),
}

/// Either the native coin or one token.
#[derive(Debug, Clone, Copy, PartialEq, Eq, Structural, PartialOrd, Ord, Hash)]
pub enum CoinOrTokenId {
    Coin,
    TokenId(TokenId),
}

impl CoinOrTokenId {
    /// The key that stands for this asset in a table of totals.
    pub open spec fn key(self) -> AssetKey {
        match self {
            CoinOrTokenId::Coin => None,
            CoinOrTokenId::TokenId(id) => Some((id.hi, id.lo)),
        }
    }

    /// The asset that a key stands for.
    pub open spec fn of_key(key: AssetKey) -> CoinOrTokenId {
        match key {
            None => CoinOrTokenId::Coin,
            Some((hi, lo)) => CoinOrTokenId::TokenId(H256 { hi, lo }),
        }
    }

    pub fn to_key(&self) -> (k: AssetKey)
        ensures
            k == self.key(),
    {
        match self {
            CoinOrTokenId::Coin => None,
            CoinOrTokenId::TokenId(id) => Some((id.hi, id.lo)),
        }
    }

    pub fn from_key(key: AssetKey) -> (id: CoinOrTokenId)
        ensures
            id == Self::of_key(key),
    {
        match key {
            None => CoinOrTokenId::Coin,
            Some((hi, lo)) => CoinOrTokenId::TokenId(H256 { hi, lo }),
        }
    }

    /// Assets and keys correspond one to one.
    pub proof fn lemma_key_bijective(id: CoinOrTokenId, key: AssetKey)
        ensures
            Self::of_key(id.key()) == id,
            Self::of_key(key).key() == key,
    {
    }
}

/// What can go wrong with the token part of a transaction.
#[derive(Debug, Clone, Copy, PartialEq, Eq, Structural)]
pub enum TokensError {
    /// A total of coins or tokens does not fit in an amount.
    CoinOrTokenOverflow,
    /// The issuing transaction gives no token id.
    TokenIdCantBeCalculated,
    /// Burned tokens were used as an input.
    AttemptToTransferBurnedTokens,
}

} // verus!
