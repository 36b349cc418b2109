use crate::decimal::{checked_add, checked_mul, decimal_product, decimal_sum, Dec};
use crate::fill::{Fill, BUY, SELL};
use crate::query::{Answer, QueryError, QueryKind};
use vstd::prelude::*;

verus! {

/// Whether a fill takes part in a count of the given kind.
pub open spec fn counted(f: Fill, kind: QueryKind) -> bool {
    match kind {
        QueryKind::BuyCount => f.direction == BUY,
        QueryKind::SellCount => f.direction == SELL,
        _ => true,
    }
}

/// The sequence numbers of the fills that a count of the given kind takes.
pub open spec fn trade_ids(fills: Seq<Fill>, kind: QueryKind) -> Set<u64> {
    Set::new(
        |id: u64|
            exists|i: int|
                0 <= i < fills.len() && counted(fills[i], kind) && #[trigger] fills[i].sequence_number
                    == id,
    )
}

/// `price * quantity` of every fill, summed in order from zero.
pub open spec fn volume_of(fills: Seq<Fill>) -> Option<Dec>
    decreases fills.len(),
{
    if fills.len() == 0 {
        Some(Dec::spec_zero())
    } else {
        let last = fills.last();
        match (volume_of(fills.drop_last()), decimal_product(last.price, last.quantity)) {
            (Some(acc), Some(p)) => decimal_sum(acc, p),
            _ => None,
        }
    }
}

/// The answer of the given kind over the fills.
pub open spec fn answer_of(kind: QueryKind, fills: Seq<Fill>) -> Result<Answer, QueryError> {
    match kind {
        QueryKind::Volume => match volume_of(fills) {
            Some(v) => Ok(Answer::Volume(v)),
            None => Err(QueryError::VolumeOverflow),
        },
        _ => Ok(Answer::Trades(trade_ids(fills, kind).len() as usize)),
    }
}

/// Two fills of one trade count as one trade, while the volume takes both
/// fills' `price * quantity`.
pub proof fn lemma_dedup_asymmetry(a: Fill, b: Fill, kind: QueryKind)
    requires
        a.sequence_number == b.sequence_number,
        counted(a, kind),
        counted(b, kind),
    ensures
        trade_ids(seq![a, b], kind) == set![a.sequence_number],
        trade_ids(seq![a, b], kind).len() == 1,
        volume_of(seq![a, b]) == match (
            decimal_product(a.price, a.quantity),
            decimal_product(b.price, b.quantity),
        ) {
            (Some(pa), Some(pb)) => match decimal_sum(Dec::spec_zero(), pa) {
                Some(acc) => decimal_sum(acc, pb),
                None => None,
            },
            _ => None,
        },
{
    let s = seq![a, b];
    assert(trade_ids(s, kind) =~= set![a.sequence_number]) by {
        assert(s[0] == a);
    }
    assert(set![a.sequence_number].len() == 1) by {
        assert(set![a.sequence_number] =~= Set::<u64>::empty().insert(a.sequence_number));
    }
    assert(s.drop_last() =~= seq![a]);
    assert(seq![a].drop_last() =~= Seq::<Fill>::empty());
    assert(volume_of(Seq::<Fill>::empty()) == Some(Dec::spec_zero()));
    assert(volume_of(seq![a]) == match decimal_product(a.price, a.quantity) {
        Some(pa) => decimal_sum(Dec::spec_zero(), pa),
        None => None,
    });
}

/// The number of distinct trades among the fills that the kind counts.
pub fn count_trades(fills: &Vec<Fill>, kind: QueryKind) -> (r: usize)
    ensures
        r == trade_ids(fills@, kind).len(),
        trade_ids(fills@, kind).finite(),
{
    let mut seen: Vec<u64> = Vec::new();
    let mut i: usize = 0;
    while i < fills.len()
        invariant
            i <= fills.len(),
            seen@.no_duplicates(),
            seen.len() <= i,
            forall|id: u64|
                seen@.contains(id) <==> exists|j: int|
                    0 <= j < i && counted(fills@[j], kind) && #[trigger] fills@[j].sequence_number
                        == id,
        decreases fills.len() - i,
    {
        let f = fills[i];
        let side = match kind {
            QueryKind::BuyCount => f.direction == BUY,
            QueryKind::SellCount => f.direction == SELL,
            _ => true,
        };
        if side {
            let mut found = false;
            let mut k: usize = 0;
            while k < seen.len()
                invariant
                    k <= seen.len(),
                    found <==> exists|m: int| 0 <= m < k && seen@[m] == f.sequence_number,
                decreases seen.len() - k,
            {
                if seen[k] == f.sequence_number {
                    found = true;
                }
                k += 1;
            }
            let ghost before = seen@;
            if !found {
                proof {
                    assert(!before.contains(f.sequence_number));
                }
                seen.push(f.sequence_number);
                proof {
                    assert forall|a: int, b: int|
                        0 <= a < seen@.len() && 0 <= b < seen@.len() && a != b implies seen@[a]
                        != seen@[b] by {
                        if a == before.len() {
                            assert(before.contains(seen@[b]));
                        } else if b == before.len() {
                            assert(before.contains(seen@[a]));
                        } else {
                            assert(seen@[a] == before[a]);
                            assert(seen@[b] == before[b]);
                        }
                    }
                }
            }
            proof {
                let sn = f.sequence_number;
                if found {
                    let m = choose|m: int| 0 <= m < before.len() && before[m] == sn;
                    assert(before.contains(sn));
                }
                assert forall|id: u64| seen@.contains(id) <==> (before.contains(id) || id == sn) by {
                    if !found {
                        if seen@.contains(id) {
                            let j = choose|j: int| 0 <= j < seen@.len() && seen@[j] == id;
                            if j < before.len() {
                                assert(before[j] == id);
                            }
                        }
                        if before.contains(id) {
                            let j = choose|j: int| 0 <= j < before.len() && before[j] == id;
                            assert(seen@[j] == id);
                        }
                        if id == sn {
                            assert(seen@[before.len() as int] == id);
                        }
                    }
                }
                assert forall|id: u64|
                    seen@.contains(id) <==> exists|j: int|
                        0 <= j < i + 1 && counted(fills@[j], kind) && #[trigger] fills@[j].sequence_number
                            == id by {
                    if exists|j: int|
                        0 <= j < i + 1 && counted(fills@[j], kind) && #[trigger] fills@[j].sequence_number
                            == id {
                        let j = choose|j: int|
                            0 <= j < i + 1 && counted(fills@[j], kind) && #[trigger] fills@[j].sequence_number
                                == id;
                        if j < i {
                            assert(before.contains(id));
                        }
                    }
                    if id == sn {
                        assert(fills@[i as int] == f);
                        assert(counted(fills@[i as int], kind));
                        assert(fills@[i as int].sequence_number == id);
                    }
                    if before.contains(id) {
                        let j = choose|j: int|
                            0 <= j < i && counted(fills@[j], kind) && #[trigger] fills@[j].sequence_number
                                == id;
                        assert(0 <= j < i + 1);
                    }
                }
            }
        } else {
            proof {
                assert forall|id: u64|
                    seen@.contains(id) <==> exists|j: int|
                        0 <= j < i + 1 && counted(fills@[j], kind) && #[trigger] fills@[j].sequence_number
                            == id by {
                    if exists|j: int|
                        0 <= j < i + 1 && counted(fills@[j], kind) && #[trigger] fills@[j].sequence_number
                            == id {
                        let j = choose|j: int|
                            0 <= j < i + 1 && counted(fills@[j], kind) && #[trigger] fills@[j].sequence_number
                                == id;
                        assert(!counted(fills@[i as int], kind));
                        assert(j != i);
                    }
                }
            }
        }
        i += 1;
    }
    proof {
        assert(seen@.to_set() =~= trade_ids(fills@, kind)) by {
            assert forall|id: u64| seen@.to_set().contains(id) <==> trade_ids(fills@, kind).contains(id) by {
                assert(seen@.to_set().contains(id) <==> seen@.contains(id));
            }
        }
        seen@.unique_seq_to_set();
    }
    seen.len()
}

/// `price * quantity` of every fill, summed in order; `None` where a product or a
/// sum overflows.
pub fn total_volume(fills: &Vec<Fill>) -> (r: Option<Dec>)
    ensures
        r == volume_of(fills@),
{
    let mut acc: Option<Dec> = Some(Dec::zero());
    let mut i: usize = 0;
    while i < fills.len()
        invariant
            i <= fills.len(),
            acc == volume_of(fills@.take(i as int)),
        decreases fills.len() - i,
    {
        let f = fills[i];
        proof {
            assert(fills@.take(i + 1).drop_last() =~= fills@.take(i as int));
        }
        acc = match acc {
            Some(a) => match checked_mul(f.price, f.quantity) {
                Some(p) => checked_add(a, p),
                None => None,
            },
            None => None,
        };
        i += 1;
    }
    proof {
        assert(fills@.take(fills.len() as int) =~= fills@);
    }
    acc
}

/// Computes the answer of the given kind over the fills.
pub fn answer(kind: QueryKind, fills: &Vec<Fill>) -> (r: Result<Answer, QueryError>)
    ensures
        r == answer_of(kind, fills@),
{
    match kind {
        QueryKind::Volume => match total_volume(fills) {
            Some(v) => Ok(Answer::Volume(v)),
            None => Err(QueryError::VolumeOverflow),
        },
        _ => Ok(Answer::Trades(count_trades(fills, kind))),
    }
}

} // verus!
