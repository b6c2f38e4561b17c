//! Bookkeeping of the amounts that a transaction moves: totals per asset,
//! and the rule that outputs never exceed inputs.

use std::cmp::Ordering;
use std::collections::BTreeMap;
use vstd::prelude::*;
use vstd::std_specs::cmp::OrdSpec;
use vstd::std_specs::iter::IteratorSpec;
use crate::primitives::Amount;
use crate::tokens::{AssetKey, CoinOrTokenId, OutputValue, TokenData, TokenId, TokensError};

verus! {

/// Why a transaction cannot be connected.
#[derive(Debug, Clone, Copy, PartialEq, Eq, Structural)]
pub enum ConnectTransactionError {
    /// An output names an asset that no input provides.
    MissingOutputOrSpent,
    /// The outputs of an asset total more than its inputs: `(inputs, outputs)`.
    AttemptToPrintMoney(Amount, Amount),
    TokensError(TokensError),
}

/// The asset and amount that an output pays out, or `None` for an issuance,
/// whose token does not exist before the transaction.
pub open spec fn output_asset(output_value: OutputValue) -> Option<(CoinOrTokenId, Amount)> {
    match output_value {
        OutputValue::Coin(amount) => Some((CoinOrTokenId::Coin, amount)),
        OutputValue::Token(TokenData::TokenTransferV1 { token_id, amount }) => Some(
            (CoinOrTokenId::TokenId(token_id), amount),
        ),
        OutputValue::Token(TokenData::TokenIssuanceV1 { .. }) => None,
        OutputValue::Token(TokenData::TokenBurnV1 { token_id, amount_to_burn }) => Some(
            (CoinOrTokenId::TokenId(token_id), amount_to_burn),
        ),
    }
}

/// The asset and amount that an output provides when it is spent as an
/// input. `issued_token_id` is the id that the transaction holding the output
/// gives to a token it issues, where it gives one.
pub open spec fn input_asset(output_value: OutputValue, issued_token_id: Option<TokenId>) -> Result<
    (CoinOrTokenId, Amount),
    ConnectTransactionError,
> {
    match output_value {
        OutputValue::Coin(amount) => Ok((CoinOrTokenId::Coin, amount)),
        OutputValue::Token(TokenData::TokenTransferV1 { token_id, amount }) => Ok(
            (CoinOrTokenId::TokenId(token_id), amount),
        ),
        OutputValue::Token(TokenData::TokenIssuanceV1 { amount_to_issue, .. }) => match issued_token_id {
            Some(token_id) => Ok((CoinOrTokenId::TokenId(token_id), amount_to_issue)),
            None => Err(
                ConnectTransactionError::TokensError(TokensError::TokenIdCantBeCalculated),
            ),
        },
        OutputValue::Token(TokenData::TokenBurnV1 { .. }) => Err(
            ConnectTransactionError::TokensError(TokensError::AttemptToTransferBurnedTokens),
        ),
    }
}

/// The table after `amount` of `key` has been added to it, or `None` where
/// the new total does not fit.
pub open spec fn increased(totals: Map<AssetKey, Amount>, key: AssetKey, amount: Amount) -> Option<
    Map<AssetKey, Amount>,
> {
    if totals.contains_key(key) {
        if totals[key].val + amount.val <= u128::MAX {
            Some(totals.insert(key, Amount { val: (totals[key].val + amount.val) as u128 }))
        } else {
            None
        }
    } else {
        Some(totals.insert(key, amount))
    }
}

/// Adds `amount` to the total of `key`, starting the total where there is
/// none yet. On overflow the table is left as it was.
pub fn insert_or_increase(
    total_amounts: &mut BTreeMap<AssetKey, Amount>,
    key: CoinOrTokenId,
    amount: Amount,
) -> (r: Result<(), ConnectTransactionError>)
    ensures
        match increased(old(total_amounts)@, key.key(), amount) {
            Some(totals) => r is Ok && final(total_amounts)@ == totals,
            None => r == Err::<(), _>(
                ConnectTransactionError::TokensError(TokensError::CoinOrTokenOverflow),
            ) && final(total_amounts)@ == old(total_amounts)@,
        },
{
    broadcast use vstd::std_specs::btree::group_btree_axioms;
    let k = key.to_key();
    assert(vstd::laws_cmp::obeys_cmp::<AssetKey>());
    let current = match total_amounts.get(&k) {
        Some(value) => Some(*value),
        None => None,
    };
    match current {
        Some(value) => {
            match value.checked_add(amount) {
                Some(sum) => {
                    total_amounts.insert(k, sum);
                    Ok(())
                },
                None => Err(ConnectTransactionError::TokensError(TokensError::CoinOrTokenOverflow)),
            }
        },
        None => {
            total_amounts.insert(k, amount);
            Ok(())
        },
    }
}

/// The asset that an output pays out, with a reference to its amount. An
/// issuance pays out nothing that existed before.
pub fn get_output_coin_or_tokenid(output_value: &OutputValue) -> (r: Option<
    (CoinOrTokenId, &Amount),
>)
    ensures
        match output_asset(*output_value) {
            Some((id, amount)) => r matches Some((rid, ramount)) && rid == id && *ramount == amount,
            None => r is None,
        },
{
    match output_value {
        OutputValue::Coin(amount) => Some((CoinOrTokenId::Coin, amount)),
        OutputValue::Token(token_data) => match token_data {
            TokenData::TokenTransferV1 { token_id, amount } => Some(
                (CoinOrTokenId::TokenId(*token_id), amount),
            ),
            TokenData::TokenIssuanceV1 {
                token_ticker: _,
                amount_to_issue: _,
                number_of_decimals: _,
                metadata_uri: _,
            } => None,
            TokenData::TokenBurnV1 { token_id, amount_to_burn } => Some(
                (CoinOrTokenId::TokenId(*token_id), amount_to_burn),
            ),
        },
    }
}

/// The asset and amount that a spent output provides. An issuance counts
/// under the token id of the transaction that made it; burned tokens cannot
/// be spent.
pub fn get_input_coin_or_tokenid(output_value: &OutputValue, issued_token_id: Option<TokenId>) -> (r:
    Result<(CoinOrTokenId, Amount), ConnectTransactionError>)
    ensures
        r == input_asset(*output_value, issued_token_id),
{
    Ok(
        match output_value {
            OutputValue::Coin(amount) => (CoinOrTokenId::Coin, *amount),
            OutputValue::Token(token_data) => match token_data {
                TokenData::TokenTransferV1 { token_id, amount } => (
                    CoinOrTokenId::TokenId(*token_id),
                    *amount,
                ),
                TokenData::TokenIssuanceV1 {
                    token_ticker: _,
                    amount_to_issue,
                    number_of_decimals: _,
                    metadata_uri: _,
                } => {
                    let token_id = match issued_token_id {
                        Some(token_id) => token_id,
                        None => {
                            return Err(
                                ConnectTransactionError::TokensError(
                                    TokensError::TokenIdCantBeCalculated,
                                ),
                            );
                        },
                    };
                    (CoinOrTokenId::TokenId(token_id), *amount_to_issue)
                },
                TokenData::TokenBurnV1 { token_id: _, amount_to_burn: _ } => {
                    return Err(
                        ConnectTransactionError::TokensError(
                            TokensError::AttemptToTransferBurnedTokens,
                        ),
                    );
                },
            },
        },
    )
}

/// Whether `key` comes before `other` in the order of the tables: the coin
/// before every token, tokens by id.
pub open spec fn key_before(key: AssetKey, other: AssetKey) -> bool {
    match (key, other) {
        (None, None) => false,
        (None, Some(_)) => true,
        (Some(_), None) => false,
        (Some(a), Some(b)) => a.0 < b.0 || (a.0 == b.0 && a.1 < b.1),
    }
}

/// Whether the inputs provide the asset `key` and at least as much of it as
/// the outputs take.
pub open spec fn covered(
    inputs: Map<AssetKey, Amount>,
    outputs: Map<AssetKey, Amount>,
    key: AssetKey,
) -> bool {
    inputs.contains_key(key) && outputs[key].val <= inputs[key].val
}

/// The error that an asset which is not covered is reported with.
pub open spec fn uncovered_error(
    inputs: Map<AssetKey, Amount>,
    outputs: Map<AssetKey, Amount>,
    key: AssetKey,
) -> ConnectTransactionError {
    if inputs.contains_key(key) {
        ConnectTransactionError::AttemptToPrintMoney(inputs[key], outputs[key])
    } else {
        ConnectTransactionError::MissingOutputOrSpent
    }
}

/// Checks that every asset among the outputs is covered by the inputs.
/// Assets are looked at in key order, and the first one that is not covered
/// decides the error.
pub fn check_transferred_amount(
    inputs_total_map: &BTreeMap<AssetKey, Amount>,
    outputs_total_map: &BTreeMap<AssetKey, Amount>,
) -> (r: Result<(), ConnectTransactionError>)
    ensures
        match r {
            Ok(()) => forall|k: AssetKey|
                outputs_total_map@.contains_key(k) ==> covered(
                    inputs_total_map@,
                    outputs_total_map@,
                    k,
                ),
            Err(e) => exists|k: AssetKey|
                {
                    &&& outputs_total_map@.contains_key(k)
                    &&& !covered(inputs_total_map@, outputs_total_map@, k)
                    &&& e == uncovered_error(inputs_total_map@, outputs_total_map@, k)
                    &&& forall|j: AssetKey|
                        outputs_total_map@.contains_key(j) && key_before(j, k) ==> covered(
                            inputs_total_map@,
                            outputs_total_map@,
                            j,
                        )
                },
        },
{
    broadcast use vstd::std_specs::btree::group_btree_axioms;
    assert(vstd::laws_cmp::obeys_cmp::<AssetKey>());
    let ghost inputs = inputs_total_map@;
    let ghost outputs = outputs_total_map@;
    let ghost walk = vstd::std_specs::btree::spec_btree_map_iter(outputs_total_map).remaining();
    for entry in it: outputs_total_map.iter()
        invariant
            inputs == inputs_total_map@,
            outputs == outputs_total_map@,
            walk == vstd::std_specs::btree::spec_btree_map_iter(outputs_total_map).remaining(),
            it.seq() == walk,
            vstd::std_specs::btree::increasing_seq(
                walk.map_values(|kv: (&AssetKey, &Amount)| *kv.0),
            ),
            forall|i: int| 0 <= i < it.index() ==> covered(inputs, outputs, *(#[trigger] walk[i]).0),
    {
        let (coin_or_token_id, outputs_total) = entry;
        proof {
            lemma_first_uncovered(inputs, outputs, walk, it.index());
        }
        match inputs_total_map.get(coin_or_token_id) {
            None => {
                return Err(ConnectTransactionError::MissingOutputOrSpent);
            },
            Some(inputs_total) => {
                if outputs_total.exceeds(inputs_total) {
                    return Err(
                        ConnectTransactionError::AttemptToPrintMoney(*inputs_total, *outputs_total),
                    );
                }
            },
        }
    }
    proof {
        assert forall|k: AssetKey| outputs.contains_key(k) implies covered(inputs, outputs, k) by {
            assert(walk.contains((&k, &outputs[k])));
            let p = choose|p: int| 0 <= p < walk.len() && walk[p] == (&k, &outputs[k]);
            assert(covered(inputs, outputs, *walk[p].0));
        }
    }
    Ok(())
}

/// The order that a table walks its keys in is `key_before`.
proof fn lemma_key_order(a: AssetKey, b: AssetKey)
    ensures
        key_before(a, b) <==> a.cmp_spec(&b) == Ordering::Less,
{
}

/// Where the entries of `outputs`, walked in key order, are covered up to
/// position `n`, every key of `outputs` before the one at `n` is covered.
proof fn lemma_first_uncovered(
    inputs: Map<AssetKey, Amount>,
    outputs: Map<AssetKey, Amount>,
    s: Seq<(&AssetKey, &Amount)>,
    n: int,
)
    requires
        0 <= n < s.len(),
        vstd::std_specs::btree::increasing_seq(s.map_values(|kv: (&AssetKey, &Amount)| *kv.0)),
        forall|i: int| 0 <= i < s.len() ==> outputs.contains_key(*(#[trigger] s[i]).0) && outputs[*s[i].0] == *s[i].1,
        forall|k: AssetKey| #[trigger] outputs.contains_key(k) ==> s.contains((&k, &outputs[k])),
        forall|i: int| 0 <= i < n ==> covered(inputs, outputs, *(#[trigger] s[i]).0),
    ensures
        outputs.contains_key(*s[n].0),
        outputs[*s[n].0] == *s[n].1,
        forall|j: AssetKey|
            outputs.contains_key(j) && key_before(j, *s[n].0) ==> covered(inputs, outputs, j),
{
    broadcast use vstd::std_specs::btree::group_btree_axioms;
    assert(vstd::laws_cmp::obeys_cmp::<AssetKey>());
    let keys = s.map_values(|kv: (&AssetKey, &Amount)| *kv.0);
    let k = *s[n].0;
    assert forall|j: AssetKey| outputs.contains_key(j) && key_before(j, k) implies covered(
        inputs,
        outputs,
        j,
    ) by {
        assert(s.contains((&j, &outputs[j])));
        let p = choose|p: int| 0 <= p < s.len() && s[p] == (&j, &outputs[j]);
        assert(keys[p] == j);
        assert(keys[n] == k);
        lemma_key_order(j, k);
        lemma_key_order(k, j);
        if p > n {
            assert(keys[n].cmp_spec(&keys[p]) == Ordering::Less);
        }
        assert(p < n);
        assert(covered(inputs, outputs, *s[p].0));
    }
}

} // verus!
