use crate::enshrining::{Enshrining, MintTerms, MultiMint, PriceModel};
use crate::keepsake::encipher::{lemma_sort_small, sort_transfers};
use crate::encode::encode_all;
use crate::keepsake::encipher::spec_keepsake_integers;
use crate::keepsake::roundtrip::{encodable, lemma_decipher_enciphered, normalized, valid_id, valid_transfers};
use crate::keepsake::{spec_decipher, spec_integers, spec_output_payload, ArtifactView, PayloadView};
use crate::script::script_instructions;
use crate::keepsake::{Keepsake, KeepsakeView};
use crate::relic_id::{relic_id, spec_relic_id, RelicId};
use crate::swap::Swap;
use crate::transfer::Transfer;
use vstd::prelude::*;

verus! {

/// Why the wallet refuses to build a relic transaction.
#[derive(Clone, Copy, Debug, PartialEq, Eq, Structural)]
pub enum WalletError {
    /// Neither a fixed price nor a price formula is given.
    MissingPrice,
    /// Both a fixed price and a price formula are given.
    ConflictingPrice,
    /// A price formula lacks one of its parameters.
    IncompleteFormula,
    /// The keepsake script is longer than an `OP_RETURN` output may be (the length).
    KeepsakeTooLarge(usize),
    /// The postage of an output is not above its dust limit (the limit, in satoshis).
    PostageBelowDust(u64),
}

/// The longest `OP_RETURN` script that is relayed.
pub const MAX_OP_RETURN_SIZE: usize = 82;

/// The price model of an enshrining: a fixed price, or a formula with all of `a`, `b`
/// and `c`; not both.
pub fn enshrine_price(
    mint_price: Option<u128>,
    formula_a: Option<u128>,
    formula_b: Option<u128>,
    formula_c: Option<u128>,
) -> (r: Result<PriceModel, WalletError>)
    ensures
        r == (if mint_price is None && formula_a is None && formula_b is None && formula_c is None {
            Err::<PriceModel, WalletError>(WalletError::MissingPrice)
        } else if mint_price is Some && (formula_a is Some || formula_b is Some || formula_c is Some) {
            Err(WalletError::ConflictingPrice)
        } else if mint_price is Some {
            Ok(PriceModel::Fixed(mint_price.unwrap()))
        } else if formula_a is None || formula_b is None || formula_c is None {
            Err(WalletError::IncompleteFormula)
        } else {
            Ok(PriceModel::Formula { a: formula_a.unwrap(), b: formula_b.unwrap(), c: formula_c.unwrap() })
        }),
{
    let has_fixed = mint_price.is_some();
    let has_formula = formula_a.is_some() || formula_b.is_some() || formula_c.is_some();
    if !has_fixed && !has_formula {
        return Err(WalletError::MissingPrice);
    }
    if has_fixed && has_formula {
        return Err(WalletError::ConflictingPrice);
    }
    match (mint_price, formula_a, formula_b, formula_c) {
        (Some(p), _, _, _) => Ok(PriceModel::Fixed(p)),
        (None, Some(a), Some(b), Some(c)) => Ok(PriceModel::Formula { a, b, c }),
        _ => Err(WalletError::IncompleteFormula),
    }
}

/// `Some(v)` where `v` is not zero.
pub open spec fn non_zero<T>(v: Option<T>, zero: T) -> Option<T> {
    if v is Some && v.unwrap() != zero {
        v
    } else {
        None
    }
}

/// The keepsake of an enshrine transaction (keepsake, sealing inscription at output
/// 1, base token change at output 2): the enshrining with its mint terms, and the
/// change where there is some.
pub fn enshrine_keepsake(
    symbol: char,
    lp_fee: Option<u16>,
    subsidy: Option<u128>,
    amount: u128,
    cap: u128,
    max_unmints: Option<u32>,
    price: PriceModel,
    seed: u128,
    tx_cap: Option<u8>,
    base_change: u128,
) -> (k: Keepsake)
    ensures
        k@ == (KeepsakeView {
            transfers: if base_change > 0 {
                seq![Transfer { id: spec_relic_id(), amount: base_change, output: 2 }]
            } else {
                Seq::empty()
            },
            pointer: None,
            claim: None,
            sealing: false,
            enshrining: Some(
                Enshrining {
                    boost_terms: None,
                    fee: non_zero(lp_fee, 0u16),
                    subsidy: non_zero(subsidy, 0u128),
                    symbol: Some(symbol),
                    mint_terms: Some(
                        MintTerms {
                            amount: Some(amount),
                            block_cap: None,
                            cap: Some(cap),
                            max_unmints: non_zero(max_unmints, 0u32),
                            price: Some(price),
                            seed: Some(seed),
                            tx_cap,
                        },
                    ),
                },
            ),
            mint: None,
            swap: None,
        }),
{
    let fee = match lp_fee {
        Some(f) if f > 0 => Some(f),
        _ => None,
    };
    let subsidy = match subsidy {
        Some(s) if s > 0 => Some(s),
        _ => None,
    };
    let max_unmints = match max_unmints {
        Some(m) if m > 0 => Some(m),
        _ => None,
    };
    let mut transfers: Vec<Transfer> = Vec::new();
    if base_change > 0 {
        transfers.push(Transfer { id: relic_id(), amount: base_change, output: 2 });
    }
    let k = Keepsake {
        transfers,
        pointer: None,
        claim: None,
        sealing: false,
        enshrining: Some(
            Enshrining {
                boost_terms: None,
                fee,
                subsidy,
                symbol: Some(symbol),
                mint_terms: Some(
                    MintTerms {
                        amount: Some(amount),
                        block_cap: None,
                        cap: Some(cap),
                        max_unmints,
                        price: Some(price),
                        seed: Some(seed),
                        tx_cap,
                    },
                ),
            },
        ),
        mint: None,
        swap: None,
    };
    proof {
        assert(k@.transfers =~= (if base_change > 0 {
            seq![Transfer { id: spec_relic_id(), amount: base_change, output: 2 }]
        } else {
            Seq::empty()
        }));
    }
    k
}

/// The keepsake script of an enshrining, where it fits in an `OP_RETURN` output.
pub fn enshrine_script(keepsake: &Keepsake) -> (r: Result<Vec<u8>, WalletError>)
    ensures
        r matches Ok(script) ==> script@.len() <= MAX_OP_RETURN_SIZE && spec_output_payload(
            script_instructions(script@),
        ) == Some(PayloadView::Valid(encode_all(spec_keepsake_integers(keepsake@)))),
        r matches Err(e) ==> e matches WalletError::KeepsakeTooLarge(len) && len > MAX_OP_RETURN_SIZE,
{
    let script = keepsake.encipher();
    if script.len() > MAX_OP_RETURN_SIZE {
        return Err(WalletError::KeepsakeTooLarge(script.len()));
    }
    Ok(script)
}

/// A mint needs an output for the base token change (and for other relics of the
/// inputs) where the balance exceeds the price or the inputs hold other relics.
pub fn mint_needs_change(base_balance: u128, price: u128, input_relics: usize) -> (r: bool)
    ensures
        r == (base_balance > price || input_relics > 1),
{
    base_balance > price || input_relics > 1
}

/// The keepsake of a mint transaction: the multi mint, and the minted relic sent to
/// output 2 (after the change output) or, without change, to output 1.
pub fn mint_keepsake(id: RelicId, amount: u128, num_mints: u8, base_limit: u128, needs_change: bool) -> (k:
    Keepsake)
    ensures
        k@ == (KeepsakeView {
            transfers: seq![
                Transfer {
                    id,
                    amount,
                    output: if needs_change {
                        2
                    } else {
                        1
                    },
                },
            ],
            pointer: None,
            claim: None,
            sealing: false,
            enshrining: None,
            mint: Some(MultiMint { count: num_mints, base_limit, is_unmint: false, relic: id }),
            swap: None,
        }),
        valid_id(id) && id != spec_relic_id() ==> encodable(k@, 3) && sort_transfers(
            k@.transfers,
        ) == k@.transfers,
{
    let output: u32 = if needs_change {
        2
    } else {
        1
    };
    let mut transfers: Vec<Transfer> = Vec::new();
    transfers.push(Transfer { id, amount, output });
    let k = Keepsake {
        transfers,
        pointer: None,
        claim: None,
        sealing: false,
        enshrining: None,
        mint: Some(MultiMint { count: num_mints, base_limit, is_unmint: false, relic: id }),
        swap: None,
    };
    proof {
        assert(k@.transfers =~= seq![Transfer { id, amount, output }]);
        lemma_sort_small(k@.transfers);
    }
    k
}

/// The keepsake of an unmint transaction: one unmint, and the change of the unminted
/// relic sent to output 2 where there is some.
pub fn unmint_keepsake(id: RelicId, change: u128) -> (k: Keepsake)
    ensures
        k@ == (KeepsakeView {
            transfers: if change > 0 {
                seq![Transfer { id, amount: change, output: 2 }]
            } else {
                Seq::empty()
            },
            pointer: None,
            claim: None,
            sealing: false,
            enshrining: None,
            mint: Some(MultiMint { count: 1, base_limit: 0, is_unmint: true, relic: id }),
            swap: None,
        }),
        valid_id(id) && id != spec_relic_id() ==> encodable(k@, 3) && sort_transfers(
            k@.transfers,
        ) == k@.transfers,
{
    let mut transfers: Vec<Transfer> = Vec::new();
    if change > 0 {
        transfers.push(Transfer { id, amount: change, output: 2 });
    }
    let k = Keepsake {
        transfers,
        pointer: None,
        claim: None,
        sealing: false,
        enshrining: None,
        mint: Some(MultiMint { count: 1, base_limit: 0, is_unmint: true, relic: id }),
        swap: None,
    };
    proof {
        if change > 0 {
            assert(k@.transfers =~= seq![Transfer { id, amount: change, output: 2 }]);
            assert(k@.transfers.drop_last() =~= Seq::<Transfer>::empty());
        } else {
            assert(k@.transfers =~= Seq::<Transfer>::empty());
        }
        lemma_sort_small(k@.transfers);
    }
    k
}

/// The keepsake of a base token mint by burning an inception inscription: the minted
/// base token sent to output 2.
pub fn mint_base_keepsake(base_id: RelicId, num_mints: u8) -> (k: Keepsake)
    ensures
        k@ == (KeepsakeView {
            transfers: seq![Transfer { id: base_id, amount: num_mints as u128, output: 2 }],
            pointer: None,
            claim: None,
            sealing: false,
            enshrining: None,
            mint: None,
            swap: None,
        }),
        valid_id(base_id) ==> encodable(k@, 3) && sort_transfers(k@.transfers) == k@.transfers,
{
    let mut transfers: Vec<Transfer> = Vec::new();
    transfers.push(Transfer { id: base_id, amount: num_mints as u128, output: 2 });
    let k = Keepsake {
        transfers,
        pointer: None,
        claim: None,
        sealing: false,
        enshrining: None,
        mint: None,
        swap: None,
    };
    proof {
        assert(k@.transfers =~= seq![Transfer { id: base_id, amount: num_mints as u128, output: 2 }]);
        assert(k@.transfers.drop_last() =~= Seq::<Transfer>::empty());
        lemma_sort_small(k@.transfers);
    }
    k
}

/// An exact-input swap whose inputs hold exactly the input amount of the input relic
/// and nothing else needs no change output.
pub fn swap_omits_change(exact_input: bool, input_balance: u128, required: u128, input_relics: usize) -> (r:
    bool)
    ensures
        r == (exact_input && input_balance == required && input_relics == 1),
{
    exact_input && input_balance == required && input_relics == 1
}

/// The keepsake of a swap transaction: the swap (the base token as an unset side),
/// and, unless the change output is omitted, the output relic sent to output 2.
pub fn swap_keepsake(
    input_id: RelicId,
    output_id: RelicId,
    input_amount: Option<u128>,
    output_amount: Option<u128>,
    exact_input: bool,
    omit_change: bool,
) -> (k: Keepsake)
    ensures
        k@ == (KeepsakeView {
            transfers: if omit_change {
                Seq::empty()
            } else {
                seq![Transfer { id: output_id, amount: 0, output: 2 }]
            },
            pointer: None,
            claim: None,
            sealing: false,
            enshrining: None,
            mint: None,
            swap: Some(
                Swap {
                    input: if input_id != spec_relic_id() {
                        Some(input_id)
                    } else {
                        None
                    },
                    output: if output_id != spec_relic_id() {
                        Some(output_id)
                    } else {
                        None
                    },
                    input_amount,
                    output_amount,
                    is_exact_input: exact_input,
                },
            ),
        }),
        valid_id(input_id) && valid_id(output_id) && input_id != output_id && input_amount != Some(
            0u128,
        ) && output_amount != Some(0u128) ==> encodable(k@, 3) && sort_transfers(k@.transfers)
            == k@.transfers,
{
    let base = relic_id();
    let mut transfers: Vec<Transfer> = Vec::new();
    if !omit_change {
        transfers.push(Transfer { id: output_id, amount: 0, output: 2 });
    }
    let k = Keepsake {
        transfers,
        pointer: None,
        claim: None,
        sealing: false,
        enshrining: None,
        mint: None,
        swap: Some(
            Swap {
                input: if input_id != base {
                    Some(input_id)
                } else {
                    None
                },
                output: if output_id != base {
                    Some(output_id)
                } else {
                    None
                },
                input_amount,
                output_amount,
                is_exact_input: exact_input,
            },
        ),
    };
    proof {
        if omit_change {
            assert(k@.transfers =~= Seq::<Transfer>::empty());
        } else {
            assert(k@.transfers =~= seq![Transfer { id: output_id, amount: 0, output: 2 }]);
            assert(k@.transfers.drop_last() =~= Seq::<Transfer>::empty());
        }
        lemma_sort_small(k@.transfers);
    }
    k
}

/// The keepsake of a claim transaction: claim to output 1.
pub fn claim_keepsake() -> (k: Keepsake)
    ensures
        k@ == (KeepsakeView {
            transfers: Seq::empty(),
            pointer: None,
            claim: Some(1),
            sealing: false,
            enshrining: None,
            mint: None,
            swap: None,
        }),
        encodable(k@, 2),
        sort_transfers(k@.transfers) == k@.transfers,
{
    let k = Keepsake {
        transfers: Vec::new(),
        pointer: None,
        claim: Some(1),
        sealing: false,
        enshrining: None,
        mint: None,
        swap: None,
    };
    proof {
        assert(k@.transfers =~= Seq::<Transfer>::empty());
        lemma_sort_small(k@.transfers);
    }
    k
}

/// A keepsake that is written faithfully for `n` outputs is so for more outputs too.
pub proof fn lemma_encodable_more_outputs(k: KeepsakeView, n: nat, m: nat)
    requires
        encodable(k, n),
        n <= m <= u32::MAX,
    ensures
        encodable(k, m),
{
    let ts = k.transfers;
    assert(valid_transfers(ts, n));
    assert forall|i: int| 0 <= i < ts.len() implies valid_id(#[trigger] ts[i].id) && ts[i].output <= m by {
        assert(0 <= i < ts.len());
        assert(valid_id(ts[i].id));
        assert(ts[i].output <= n);
    }
    assert(valid_transfers(ts, m));
}

/// A keepsake that the wallet builds comes back unchanged from the transaction whose
/// first keepsake output holds its script: what the wallet checks before it signs.
pub proof fn lemma_wallet_keepsake_deciphers(k: KeepsakeView, scripts: Seq<Seq<u8>>, i: int)
    requires
        encodable(k, scripts.len()),
        sort_transfers(k.transfers) == k.transfers,
        0 <= i < scripts.len(),
        forall|j: int|
            0 <= j < i ==> spec_output_payload(script_instructions(#[trigger] scripts[j])) is None,
        spec_output_payload(script_instructions(scripts[i])) == Some(
            PayloadView::Valid(encode_all(spec_keepsake_integers(k))),
        ),
        spec_integers(encode_all(spec_keepsake_integers(k))) == Some(spec_keepsake_integers(k)),
    ensures
        spec_decipher(scripts) == Some(ArtifactView::Keepsake(k)),
{
    lemma_decipher_enciphered(k, scripts, i);
    assert(normalized(k) == k);
}

/// The number of bytes that the compact-size length prefix of `n` takes.
pub open spec fn compact_size_len(n: nat) -> nat {
    if n <= 0xFC {
        1
    } else if n <= 0xFFFF {
        3
    } else if n <= 0xFFFF_FFFF {
        5
    } else {
        9
    }
}

/// A witness program: a version opcode (`OP_0` or `OP_1` to `OP_16`), then one push of
/// 2 to 40 bytes that ends the script.
pub open spec fn is_witness_program(s: Seq<u8>) -> bool {
    &&& 4 <= s.len() <= 42
    &&& 2 <= s[1] <= 40
    &&& s.len() - 2 == s[1]
    &&& (s[0] == 0 || (0x51 <= s[0] && s[0] <= 0x60))
}

/// The least value, in satoshis, that an output with this script may carry: at the
/// default dust relay fee of 3000 satoshis per 1000 bytes, the fee to create and later
/// spend it (nothing for an `OP_RETURN` script).
pub open spec fn spec_dust_limit(s: Seq<u8>) -> u64 {
    let size = 8 + compact_size_len(s.len()) + s.len();
    let bytes = if s.len() > 0 && s[0] == 0x6a {
        0
    } else if is_witness_program(s) {
        32 + 4 + 1 + 26 + 4 + size
    } else {
        32 + 4 + 1 + 107 + 4 + size
    };
    ((3000 * bytes) / 1000) as u64
}

/// The dust limit of a script, by `bitcoin::Script::minimal_non_dust`. Claimed: it is
/// `spec_dust_limit` (the source's formula at its default relay fee). The call panics
/// where `3000` times the size overflows a `u64`; the length bound leaves that out.
#[verifier::external_body]
fn minimal_non_dust(script: &[u8]) -> (r: u64)
    requires
        script@.len() <= u32::MAX,
    ensures
        r == spec_dust_limit(script@),
{
    bitcoin::Script::from_bytes(script).minimal_non_dust().to_sat()
}

/// The postage of an output to this script must be above the script's dust limit.
pub fn check_postage(script: &[u8], postage: u64) -> (r: Result<(), WalletError>)
    requires
        script@.len() <= u32::MAX,
    ensures
        spec_dust_limit(script@) < postage ==> r == Ok::<(), WalletError>(()),
        spec_dust_limit(script@) >= postage ==> r == Err::<(), WalletError>(
            WalletError::PostageBelowDust(spec_dust_limit(script@)),
        ),
{
    let limit = minimal_non_dust(script);
    if limit < postage {
        Ok(())
    } else {
        Err(WalletError::PostageBelowDust(limit))
    }
}

/// The outputs of a mint, swap or claim transaction: the keepsake with no value, then
/// the change output (where there is one) and the destination, each with the postage.
pub fn relic_outputs(keepsake: Vec<u8>, change: Option<Vec<u8>>, destination: Vec<u8>, postage: u64) -> (r:
    Vec<(Vec<u8>, u64)>)
    ensures
        r@.len() == if change is Some {
            3nat
        } else {
            2nat
        },
        r@[0].0@ == keepsake@ && r@[0].1 == 0,
        change matches Some(c) ==> r@[1].0@ == c@ && r@[1].1 == postage,
        r@.last().0@ == destination@ && r@.last().1 == postage,
{
    let mut outputs: Vec<(Vec<u8>, u64)> = Vec::new();
    outputs.push((keepsake, 0));
    match change {
        Some(c) => outputs.push((c, postage)),
        None => {},
    }
    outputs.push((destination, postage));
    outputs
}

} // verus!
