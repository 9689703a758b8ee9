use crate::fee::{fee_for, lemma_fee_bounds, required_fee, STANDARD_FEE};
use crate::submission::{
    is_rank_sorted, lemma_insert_ranked_at, lemma_ranked, numbered_by_position, ranked,
    ranks_above, Submission, SubmissionError, SubmissionReceipt,
};
use vstd::prelude::*;
use vstd::string::StrSliceExecFns;

verus! {

/// Longest player name accepted, in characters.
pub const MAX_NAME_CHARS: usize = 64;

/// A player name is accepted when it is non-empty and at most
/// `MAX_NAME_CHARS` characters long.
pub open spec fn valid_name(name: Seq<char>) -> bool {
    0 < name.len() <= MAX_NAME_CHARS
}

/// Sum of the fees paid by the entries of `log`.
pub open spec fn fee_sum(log: Seq<Submission>) -> nat
    decreases log.len(),
{
    if log.len() == 0 {
        0
    } else {
        fee_sum(log.drop_last()) + log.last().fee_paid as nat
    }
}

/// The abstract state of a ledger.
pub struct LedgerState {
    pub network_id: u64,
    pub submissions: Seq<Submission>,
    pub total_submissions: nat,
    pub contract_balance: nat,
}

impl LedgerState {
    /// The state after accepting `entry`, which paid `entry.fee_paid`.
    pub open spec fn record(self, entry: Submission) -> LedgerState {
        LedgerState {
            network_id: self.network_id,
            submissions: self.submissions.push(entry),
            total_submissions: self.total_submissions + 1,
            contract_balance: self.contract_balance + entry.fee_paid as nat,
        }
    }
}

/// The first `count` entries of the ranking, or all of them when there are
/// fewer.
pub open spec fn leaderboard(state: LedgerState, count: nat) -> Seq<Submission> {
    let ranking = ranked(state.submissions);
    if count < ranking.len() {
        ranking.take(count as int)
    } else {
        ranking
    }
}

/// The score ledger of one deployment: an append-only log of submissions,
/// the same entries in rank order, and two counters.
pub struct Ledger {
    network_id: u64,
    log: Vec<Submission>,
    board: Vec<Submission>,
    total_submissions: u64,
    contract_balance: u128,
}

impl View for Ledger {
    type V = LedgerState;

    closed spec fn view(&self) -> LedgerState {
        LedgerState {
            network_id: self.network_id,
            submissions: self.log@,
            total_submissions: self.total_submissions as nat,
            contract_balance: self.contract_balance as nat,
        }
    }
}

/// Sum of `n` fees of `f` each.
proof fn lemma_fee_sum_uniform(log: Seq<Submission>, f: u128)
    requires
        forall|i: int| 0 <= i < log.len() ==> (#[trigger] log[i]).fee_paid == f,
    ensures
        fee_sum(log) == log.len() * f,
    decreases log.len(),
{
    if log.len() > 0 {
        let prev = log.drop_last();
        assert forall|i: int| 0 <= i < prev.len() implies (#[trigger] prev[i]).fee_paid == f by {
            assert(prev[i] == log[i]);
        }
        lemma_fee_sum_uniform(prev, f);
        assert(log.last() == log[log.len() - 1]);
        assert((prev.len() + 1) * f == prev.len() * f + f) by (nonlinear_arith);
    }
}

impl Ledger {
    /// Well-formed: the counters agree with the log, entries are numbered by
    /// position and paid the network's fee, and the board is the log ranked.
    pub closed spec fn wf(&self) -> bool {
        &&& self.log@.len() == self.total_submissions
        &&& numbered_by_position(self.log@)
        &&& forall|i: int|
            0 <= i < self.log@.len() ==> (#[trigger] self.log@[i]).fee_paid == fee_for(
                self.network_id,
            )
        &&& self.contract_balance == fee_sum(self.log@)
        &&& self.board@ == ranked(self.log@)
    }

    /// A fresh ledger deployed on `network_id`: no submissions, zero balance.
    pub fn new(network_id: u64) -> (l: Ledger)
        ensures
            l.wf(),
            l@ == (LedgerState {
                network_id,
                submissions: Seq::empty(),
                total_submissions: 0,
                contract_balance: 0,
            }),
    {
        let l = Ledger {
            network_id,
            log: Vec::new(),
            board: Vec::new(),
            total_submissions: 0,
            contract_balance: 0,
        };
        assert(l.log@ =~= Seq::<Submission>::empty());
        assert(l.board@ =~= ranked(l.log@));
        l
    }

    /// The network this ledger was deployed on.
    pub fn network_id(&self) -> (r: u64)
        ensures
            r == self@.network_id,
    {
        self.network_id
    }

    /// The fee that a new submission must carry.
    pub fn submission_fee(&self) -> (fee: u128)
        ensures
            fee == fee_for(self@.network_id),
    {
        required_fee(self.network_id)
    }

    /// Total number of submissions, the current fee, and the balance.
    pub fn get_stats(&self) -> (r: (u64, u128, u128))
        ensures
            r.0 == self@.total_submissions,
            r.1 == fee_for(self@.network_id),
            r.2 == self@.contract_balance,
    {
        (self.total_submissions, required_fee(self.network_id), self.contract_balance)
    }

    /// Records a submission of `score` by `player_name` carrying
    /// `attached_value`. The value must equal the network's fee exactly and
    /// the name must be valid; a refused submission changes nothing.
    pub fn submit_score(&mut self, player_name: String, score: u128, attached_value: u128) -> (r:
        Result<SubmissionReceipt, SubmissionError>)
        requires
            old(self).wf(),
            old(self)@.total_submissions < u64::MAX,
        ensures
            final(self).wf(),
            attached_value != fee_for(old(self)@.network_id) ==> {
                &&& r == Err::<SubmissionReceipt, SubmissionError>(
                    SubmissionError::InsufficientOrExcessFee {
                        expected: fee_for(old(self)@.network_id),
                        actual: attached_value,
                    },
                )
                &&& final(self)@ == old(self)@
            },
            attached_value == fee_for(old(self)@.network_id) && !valid_name(player_name@) ==> {
                &&& r == Err::<SubmissionReceipt, SubmissionError>(SubmissionError::InvalidName)
                &&& final(self)@ == old(self)@
            },
            attached_value == fee_for(old(self)@.network_id) && valid_name(player_name@) ==> {
                let entry = Submission {
                    player_name,
                    score,
                    fee_paid: attached_value,
                    sequence_number: old(self)@.total_submissions as u64,
                };
                &&& r == Ok::<SubmissionReceipt, SubmissionError>(
                    SubmissionReceipt {
                        sequence_number: old(self)@.total_submissions as u64,
                        submission: entry,
                    },
                )
                &&& final(self)@ == old(self)@.record(entry)
            },
    {
        let expected = required_fee(self.network_id);
        if attached_value != expected {
            return Err(SubmissionError::InsufficientOrExcessFee { expected, actual: attached_value });
        }
        let name_len = player_name.as_str().unicode_len();
        if name_len == 0 || name_len > MAX_NAME_CHARS {
            return Err(SubmissionError::InvalidName);
        }
        let n = self.total_submissions;
        proof {
            lemma_fee_bounds(self.network_id);
            lemma_fee_sum_uniform(self.log@, expected);
            assert((n + 1) * expected <= 0x1_0000_0000_0000_0000 * STANDARD_FEE) by (nonlinear_arith)
                requires
                    n < 0xffff_ffff_ffff_ffff,
                    expected <= STANDARD_FEE,
            ;
            assert(n * expected + expected == (n + 1) * expected) by (nonlinear_arith);
            assert(self.contract_balance + expected <= u128::MAX);
            lemma_ranked(self.log@);
        }
        let ghost old_log = self.log@;
        let ghost old_board = self.board@;
        let entry = Submission {
            player_name,
            score,
            fee_paid: attached_value,
            sequence_number: n,
        };
        // The new entry goes before the first entry with a lower score: an
        // equal score was submitted earlier and stays ahead.
        let mut p: usize = 0;
        while p < self.board.len() && self.board[p].score >= score
            invariant
                self.board@ == old_board,
                p <= old_board.len(),
                forall|k: int| 0 <= k < p ==> (#[trigger] old_board[k]).score >= score,
            decreases old_board.len() - p,
        {
            p = p + 1;
        }
        proof {
            broadcast use vstd::seq_lib::group_to_multiset_ensures;

            assert forall|k: int| 0 <= k < p implies !ranks_above(entry, #[trigger] old_board[k]) by {
                assert(old_board.to_multiset().count(old_board[k]) > 0);
                assert(old_log.contains(old_board[k]));
                let m = choose|m: int| 0 <= m < old_log.len() && old_log[m] == old_board[k];
                assert(old_log[m].sequence_number == m);
            }
            lemma_insert_ranked_at(old_board, entry, p as int);
            assert(old_log.push(entry).drop_last() =~= old_log);
        }
        let receipt = SubmissionReceipt { sequence_number: n, submission: entry.duplicate() };
        let ranked_copy = entry.duplicate();
        self.log.push(entry);
        self.board.insert(p, ranked_copy);
        self.total_submissions = n + 1;
        self.contract_balance = self.contract_balance + attached_value;
        proof {
            let log = self.log@;
            assert forall|i: int| 0 <= i < log.len() implies (#[trigger] log[i]).sequence_number
                == i by {
                if i < old_log.len() {
                    assert(log[i] == old_log[i]);
                }
            }
            assert forall|i: int| 0 <= i < log.len() implies (#[trigger] log[i]).fee_paid
                == fee_for(self.network_id) by {
                if i < old_log.len() {
                    assert(log[i] == old_log[i]);
                }
            }
            assert(log.drop_last() =~= old_log);
        }
        Ok(receipt)
    }

    /// The `count` best submissions in rank order (all of them when there are
    /// fewer). The result depends on the ledger's state alone.
    pub fn get_leaderboard(&self, count: u64) -> (r: Vec<Submission>)
        requires
            self.wf(),
        ensures
            r@ == leaderboard(self@, count as nat),
    {
        let len: usize = if (count as u128) < (self.board.len() as u128) {
            count as usize
        } else {
            self.board.len()
        };
        let mut r: Vec<Submission> = Vec::new();
        let mut i: usize = 0;
        while i < len
            invariant
                len <= self.board@.len(),
                i <= len,
                r@ == self.board@.take(i as int),
            decreases len - i,
        {
            r.push(self.board[i].duplicate());
            i = i + 1;
            assert(r@ =~= self.board@.take(i as int));
        }
        assert(self.board@.take(self.board@.len() as int) =~= self.board@);
        r
    }
}

/// In every state a ledger can reach, the submission count equals the number
/// of recorded submissions, the balance equals the sum of the fees they paid,
/// and each of them paid the network's fee.
pub proof fn lemma_counters_match_log(l: &Ledger)
    requires
        l.wf(),
    ensures
        l@.total_submissions == l@.submissions.len(),
        l@.contract_balance == fee_sum(l@.submissions),
        forall|i: int|
            0 <= i < l@.submissions.len() ==> (#[trigger] l@.submissions[i]).fee_paid == fee_for(
                l@.network_id,
            ),
{
}

/// The leaderboard of any length is in strict order of score descending then
/// sequence number ascending, has `min(count, total)` entries, holds only
/// recorded submissions, and every recorded submission left out ranks below
/// every entry shown.
pub proof fn lemma_leaderboard_ranked(l: &Ledger, count: nat)
    requires
        l.wf(),
    ensures
        is_rank_sorted(leaderboard(l@, count)),
        leaderboard(l@, count).len() == if count < l@.total_submissions {
            count
        } else {
            l@.total_submissions
        },
        forall|j: int|
            0 <= j < leaderboard(l@, count).len() ==> l@.submissions.contains(
                #[trigger] leaderboard(l@, count)[j],
            ),
        forall|i: int, j: int|
            0 <= i < l@.submissions.len() && 0 <= j < leaderboard(l@, count).len()
                && !leaderboard(l@, count).contains(#[trigger] l@.submissions[i]) ==> ranks_above(
                #[trigger] leaderboard(l@, count)[j],
                l@.submissions[i],
            ),
{
    broadcast use vstd::seq_lib::group_to_multiset_ensures;

    let log = l@.submissions;
    lemma_ranked(log);
    let ranking = ranked(log);
    let top = leaderboard(l@, count);
    assert(forall|j: int| 0 <= j < top.len() ==> top[j] == #[trigger] ranking[j]);
    assert forall|j: int| 0 <= j < top.len() implies log.contains(#[trigger] top[j]) by {
        assert(ranking.to_multiset().count(ranking[j]) > 0);
    }
    assert forall|i: int, j: int|
        0 <= i < log.len() && 0 <= j < top.len() && !top.contains(
            #[trigger] log[i],
        ) implies ranks_above(#[trigger] top[j], log[i]) by {
        assert(log.to_multiset().count(log[i]) > 0);
        assert(ranking.contains(log[i]));
        let m = choose|m: int| 0 <= m < ranking.len() && ranking[m] == log[i];
        if m < top.len() {
            assert(top[m] == ranking[m]);
        }
        assert(ranks_above(ranking[j], ranking[m]));
    }
}

} // verus!
