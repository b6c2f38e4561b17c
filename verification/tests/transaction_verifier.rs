use std::collections::BTreeMap;

use p2p::primitives::{Amount, H256};
use p2p::tokens::{AssetKey, CoinOrTokenId, OutputValue, TokenData, TokensError};
use p2p::transaction_verifier::{
    check_transferred_amount, get_input_coin_or_tokenid, get_output_coin_or_tokenid,
    insert_or_increase, ConnectTransactionError,
};

fn token(n: u128) -> H256 {
    H256 { hi: 0, lo: n }
}

fn totals(entries: &[(CoinOrTokenId, u128)]) -> BTreeMap<AssetKey, Amount> {
    let mut map = BTreeMap::new();
    for (id, atoms) in entries {
        insert_or_increase(&mut map, *id, Amount::from_atoms(*atoms)).unwrap();
    }
    map
}

#[test]
fn amount_checked_add_exact() {
    let a = Amount::from_atoms(40);
    assert_eq!(a.checked_add(Amount::from_atoms(2)), Some(Amount::from_atoms(42)));
    assert_eq!(a.into_atoms(), 40);
    assert_eq!(Amount::from_atoms(u128::MAX).checked_add(Amount::from_atoms(1)), None);
    assert_eq!(
        Amount::from_atoms(u128::MAX - 1).checked_add(Amount::from_atoms(1)),
        Some(Amount::from_atoms(u128::MAX))
    );
}

#[test]
fn insert_or_increase_starts_a_total() {
    let mut map = BTreeMap::new();
    assert_eq!(insert_or_increase(&mut map, CoinOrTokenId::Coin, Amount::from_atoms(5)), Ok(()));
    assert_eq!(map.len(), 1);
    assert_eq!(map.get(&None), Some(&Amount::from_atoms(5)));
}

#[test]
fn insert_or_increase_adds_to_a_total() {
    let mut map = BTreeMap::new();
    let id = CoinOrTokenId::TokenId(token(7));
    insert_or_increase(&mut map, id, Amount::from_atoms(5)).unwrap();
    insert_or_increase(&mut map, id, Amount::from_atoms(6)).unwrap();
    insert_or_increase(&mut map, CoinOrTokenId::Coin, Amount::from_atoms(1)).unwrap();
    assert_eq!(map.len(), 2);
    assert_eq!(map.get(&id.to_key()), Some(&Amount::from_atoms(11)));
    assert_eq!(map.get(&CoinOrTokenId::Coin.to_key()), Some(&Amount::from_atoms(1)));
}

#[test]
fn insert_or_increase_overflow_leaves_the_table() {
    let mut map = BTreeMap::new();
    insert_or_increase(&mut map, CoinOrTokenId::Coin, Amount::from_atoms(u128::MAX)).unwrap();
    assert_eq!(
        insert_or_increase(&mut map, CoinOrTokenId::Coin, Amount::from_atoms(1)),
        Err(ConnectTransactionError::TokensError(TokensError::CoinOrTokenOverflow))
    );
    assert_eq!(map.get(&None), Some(&Amount::from_atoms(u128::MAX)));
    assert_eq!(insert_or_increase(&mut map, CoinOrTokenId::Coin, Amount::from_atoms(0)), Ok(()));
}

#[test]
fn keys_and_assets_correspond() {
    let id = CoinOrTokenId::TokenId(H256 { hi: 3, lo: 9 });
    assert_eq!(id.to_key(), Some((3, 9)));
    assert_eq!(CoinOrTokenId::Coin.to_key(), None);
    assert_eq!(CoinOrTokenId::from_key(Some((3, 9))), id);
    assert_eq!(CoinOrTokenId::from_key(None), CoinOrTokenId::Coin);
}

#[test]
fn transfer_within_inputs_is_accepted() {
    let inputs = totals(&[(CoinOrTokenId::Coin, 10), (CoinOrTokenId::TokenId(token(1)), 4)]);
    let outputs = totals(&[(CoinOrTokenId::Coin, 10), (CoinOrTokenId::TokenId(token(1)), 3)]);
    assert_eq!(check_transferred_amount(&inputs, &outputs), Ok(()));
    assert_eq!(check_transferred_amount(&inputs, &BTreeMap::new()), Ok(()));
    assert_eq!(check_transferred_amount(&BTreeMap::new(), &BTreeMap::new()), Ok(()));
}

#[test]
fn output_without_input_is_missing() {
    let inputs = totals(&[(CoinOrTokenId::Coin, 10)]);
    let outputs = totals(&[(CoinOrTokenId::TokenId(token(1)), 0)]);
    assert_eq!(
        check_transferred_amount(&inputs, &outputs),
        Err(ConnectTransactionError::MissingOutputOrSpent)
    );
}

#[test]
fn outputs_over_inputs_print_money() {
    let inputs = totals(&[(CoinOrTokenId::Coin, 10)]);
    let outputs = totals(&[(CoinOrTokenId::Coin, 11)]);
    assert_eq!(
        check_transferred_amount(&inputs, &outputs),
        Err(ConnectTransactionError::AttemptToPrintMoney(
            Amount::from_atoms(10),
            Amount::from_atoms(11)
        ))
    );
}

#[test]
fn first_uncovered_asset_in_key_order_decides() {
    let small = CoinOrTokenId::TokenId(H256 { hi: 0, lo: 5 });
    let large = CoinOrTokenId::TokenId(H256 { hi: 1, lo: 0 });
    // The coin comes first and is over its input; both tokens are missing.
    let inputs = totals(&[(CoinOrTokenId::Coin, 1)]);
    let outputs = totals(&[(large, 1), (small, 1), (CoinOrTokenId::Coin, 2)]);
    assert_eq!(
        check_transferred_amount(&inputs, &outputs),
        Err(ConnectTransactionError::AttemptToPrintMoney(
            Amount::from_atoms(1),
            Amount::from_atoms(2)
        ))
    );
    // With the coin covered, the smaller token decides.
    let inputs = totals(&[(CoinOrTokenId::Coin, 2), (small, 3)]);
    let outputs = totals(&[(large, 1), (small, 4), (CoinOrTokenId::Coin, 2)]);
    assert_eq!(
        check_transferred_amount(&inputs, &outputs),
        Err(ConnectTransactionError::AttemptToPrintMoney(
            Amount::from_atoms(3),
            Amount::from_atoms(4)
        ))
    );
    let inputs = totals(&[(CoinOrTokenId::Coin, 2), (small, 4)]);
    assert_eq!(
        check_transferred_amount(&inputs, &outputs),
        Err(ConnectTransactionError::MissingOutputOrSpent)
    );
}

#[test]
fn output_asset_of_each_kind() {
    let coin = OutputValue::Coin(Amount::from_atoms(3));
    assert_eq!(
        get_output_coin_or_tokenid(&coin),
        Some((CoinOrTokenId::Coin, &Amount::from_atoms(3)))
    );
    let transfer = OutputValue::Token(TokenData::TokenTransferV1 {
        token_id: token(2),
        amount: Amount::from_atoms(8),
    });
    assert_eq!(
        get_output_coin_or_tokenid(&transfer),
        Some((CoinOrTokenId::TokenId(token(2)), &Amount::from_atoms(8)))
    );
    let issuance = OutputValue::Token(TokenData::TokenIssuanceV1 {
        token_ticker: b"TKN".to_vec(),
        amount_to_issue: Amount::from_atoms(100),
        number_of_decimals: 2,
        metadata_uri: b"https://example.org".to_vec(),
    });
    assert_eq!(get_output_coin_or_tokenid(&issuance), None);
    let burn = OutputValue::Token(TokenData::TokenBurnV1 {
        token_id: token(2),
        amount_to_burn: Amount::from_atoms(1),
    });
    assert_eq!(
        get_output_coin_or_tokenid(&burn),
        Some((CoinOrTokenId::TokenId(token(2)), &Amount::from_atoms(1)))
    );
}

#[test]
fn input_asset_of_each_kind() {
    let coin = OutputValue::Coin(Amount::from_atoms(3));
    assert_eq!(
        get_input_coin_or_tokenid(&coin, None),
        Ok((CoinOrTokenId::Coin, Amount::from_atoms(3)))
    );
    let transfer = OutputValue::Token(TokenData::TokenTransferV1 {
        token_id: token(2),
        amount: Amount::from_atoms(8),
    });
    assert_eq!(
        get_input_coin_or_tokenid(&transfer, Some(token(9))),
        Ok((CoinOrTokenId::TokenId(token(2)), Amount::from_atoms(8)))
    );
    let issuance = OutputValue::Token(TokenData::TokenIssuanceV1 {
        token_ticker: b"TKN".to_vec(),
        amount_to_issue: Amount::from_atoms(100),
        number_of_decimals: 2,
        metadata_uri: Vec::new(),
    });
    assert_eq!(
        get_input_coin_or_tokenid(&issuance, Some(token(9))),
        Ok((CoinOrTokenId::TokenId(token(9)), Amount::from_atoms(100)))
    );
    assert_eq!(
        get_input_coin_or_tokenid(&issuance, None),
        Err(ConnectTransactionError::TokensError(TokensError::TokenIdCantBeCalculated))
    );
    let burn = OutputValue::Token(TokenData::TokenBurnV1 {
        token_id: token(2),
        amount_to_burn: Amount::from_atoms(1),
    });
    assert_eq!(
        get_input_coin_or_tokenid(&burn, Some(token(9))),
        Err(ConnectTransactionError::TokensError(TokensError::AttemptToTransferBurnedTokens))
    );
}
