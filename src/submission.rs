use vstd::multiset::Multiset;
use vstd::prelude::*;

verus! {

/// One accepted entry of the ledger. Never changed once recorded.
#[derive(Debug)]
pub struct Submission {
    pub player_name: String,
    pub score: u128,
    pub fee_paid: u128,
    /// Position of the entry in the ledger's log: assigned on insertion,
    /// strictly increasing, never reused.
    pub sequence_number: u64,
}

/// What a successful submission hands back.
#[derive(Debug)]
pub struct SubmissionReceipt {
    pub sequence_number: u64,
    pub submission: Submission,
}

/// Why a submission was refused. Each one leaves the ledger as it was.
#[derive(Debug, Clone, Copy, PartialEq, Eq, Structural)]
pub enum SubmissionError {
    /// The player name is empty or longer than `MAX_NAME_CHARS` characters.
    InvalidName,
    /// The score does not fit the supported range.
    InvalidScore,
    /// The attached value differs from the fee that the network requires.
    InsufficientOrExcessFee { expected: u128, actual: u128 },
}

impl Submission {
    /// An identical copy of this submission.
    pub fn duplicate(&self) -> (r: Submission)
        ensures
            r == *self,
    {
        Submission {
            player_name: self.player_name.clone(),
            score: self.score,
            fee_paid: self.fee_paid,
            sequence_number: self.sequence_number,
        }
    }
}

/// The score held by a 256-bit value given as its high and low 128-bit
/// halves: only values below 2^128 are supported.
pub fn score_from_words(high: u128, low: u128) -> (r: Result<u128, SubmissionError>)
    ensures
        high == 0 ==> r == Ok::<u128, SubmissionError>(low),
        high != 0 ==> r == Err::<u128, SubmissionError>(SubmissionError::InvalidScore),
{
    if high == 0 {
        Ok(low)
    } else {
        Err(SubmissionError::InvalidScore)
    }
}

/// `a` ranks strictly above `b`: a higher score, or an equal score and an
/// earlier sequence number.
pub open spec fn ranks_above(a: Submission, b: Submission) -> bool {
    a.score > b.score || (a.score == b.score && a.sequence_number < b.sequence_number)
}

/// The sequence is in strict rank order.
pub open spec fn is_rank_sorted(s: Seq<Submission>) -> bool {
    forall|i: int, j: int| 0 <= i < j < s.len() ==> ranks_above(#[trigger] s[i], #[trigger] s[j])
}

/// `x` placed into `b` right before the first entry that it ranks above.
pub open spec fn insert_ranked(b: Seq<Submission>, x: Submission) -> Seq<Submission>
    decreases b.len(),
{
    if b.len() == 0 {
        seq![x]
    } else if ranks_above(x, b[0]) {
        seq![x] + b
    } else {
        seq![b[0]] + insert_ranked(b.drop_first(), x)
    }
}

/// The submissions of `log` in rank order, built as each entry arrives.
pub open spec fn ranked(log: Seq<Submission>) -> Seq<Submission>
    decreases log.len(),
{
    if log.len() == 0 {
        Seq::empty()
    } else {
        insert_ranked(ranked(log.drop_last()), log.last())
    }
}

/// Entry `i` of the log carries sequence number `i`.
pub open spec fn numbered_by_position(log: Seq<Submission>) -> bool {
    forall|i: int| 0 <= i < log.len() ==> (#[trigger] log[i]).sequence_number == i
}

/// Inserting keeps the entries, adds `x`, and keeps a sorted sequence sorted
/// when no entry of `b` has the sequence number of `x`.
pub proof fn lemma_insert_ranked(b: Seq<Submission>, x: Submission)
    requires
        is_rank_sorted(b),
        forall|k: int| 0 <= k < b.len() ==> (#[trigger] b[k]).sequence_number != x.sequence_number,
    ensures
        is_rank_sorted(insert_ranked(b, x)),
        insert_ranked(b, x).to_multiset() == b.to_multiset().insert(x),
        insert_ranked(b, x).len() == b.len() + 1,
    decreases b.len(),
{
    broadcast use vstd::seq_lib::group_to_multiset_ensures;

    if b.len() == 0 {
        assert(seq![x] =~= Seq::<Submission>::empty().push(x));
        assert(b =~= Seq::<Submission>::empty());
    } else if ranks_above(x, b[0]) {
        let r = seq![x] + b;
        assert forall|i: int, j: int| 0 <= i < j < r.len() implies ranks_above(
            #[trigger] r[i],
            #[trigger] r[j],
        ) by {
            if i > 0 {
                assert(r[i] == b[i - 1] && r[j] == b[j - 1]);
            } else if j > 1 {
                assert(ranks_above(b[0], b[j - 1]));
            }
        }
        vstd::seq_lib::lemma_multiset_commutative(seq![x], b);
        assert(seq![x] =~= Seq::<Submission>::empty().push(x));
        assert(b.to_multiset().add(Multiset::singleton(x)) =~= b.to_multiset().insert(x));
    } else {
        let t = b.drop_first();
        assert forall|i: int, j: int| 0 <= i < j < t.len() implies ranks_above(
            #[trigger] t[i],
            #[trigger] t[j],
        ) by {
            assert(ranks_above(b[i + 1], b[j + 1]));
        }
        assert forall|k: int| 0 <= k < t.len() implies (#[trigger] t[k]).sequence_number
            != x.sequence_number by {
            assert(t[k] == b[k + 1]);
        }
        lemma_insert_ranked(t, x);
        let rest = insert_ranked(t, x);
        let r = seq![b[0]] + rest;
        assert(ranks_above(b[0], x)) by {
            assert(b[0].sequence_number != x.sequence_number);
        }
        // Every entry of `rest` is `x` or an entry of `t`, all ranked below `b[0]`.
        assert forall|k: int| 0 <= k < rest.len() implies ranks_above(b[0], #[trigger] rest[k]) by {
            assert(rest.to_multiset().count(rest[k]) > 0);
            assert(t.to_multiset().insert(x).count(rest[k]) > 0);
            if rest[k] != x {
                assert(t.to_multiset().count(rest[k]) > 0);
                assert(t.contains(rest[k]));
                let m = choose|m: int| 0 <= m < t.len() && t[m] == rest[k];
                assert(ranks_above(b[0], b[m + 1]));
            }
        }
        assert forall|i: int, j: int| 0 <= i < j < r.len() implies ranks_above(
            #[trigger] r[i],
            #[trigger] r[j],
        ) by {
            if i == 0 {
                assert(r[j] == rest[j - 1]);
            } else {
                assert(r[i] == rest[i - 1] && r[j] == rest[j - 1]);
            }
        }
        vstd::seq_lib::lemma_multiset_commutative(seq![b[0]], rest);
        vstd::seq_lib::lemma_multiset_commutative(seq![b[0]], t);
        assert(seq![b[0]] + t =~= b);
    }
}

/// Inserting at the first position whose entry `x` ranks above is what
/// `insert_ranked` describes.
pub proof fn lemma_insert_ranked_at(b: Seq<Submission>, x: Submission, p: int)
    requires
        0 <= p <= b.len(),
        forall|k: int| 0 <= k < p ==> !ranks_above(x, #[trigger] b[k]),
        p < b.len() ==> ranks_above(x, b[p]),
    ensures
        insert_ranked(b, x) == b.insert(p, x),
    decreases b.len(),
{
    if b.len() == 0 {
        assert(b.insert(p, x) =~= seq![x]);
    } else if p == 0 {
        assert(b.insert(p, x) =~= seq![x] + b);
    } else {
        let t = b.drop_first();
        assert forall|k: int| 0 <= k < p - 1 implies !ranks_above(x, #[trigger] t[k]) by {
            assert(t[k] == b[k + 1]);
        }
        lemma_insert_ranked_at(t, x, p - 1);
        assert(b.insert(p, x) =~= seq![b[0]] + t.insert(p - 1, x));
    }
}

/// The ranked view of a log numbered by position is in strict rank order and
/// holds exactly the log's entries.
pub proof fn lemma_ranked(log: Seq<Submission>)
    requires
        numbered_by_position(log),
    ensures
        is_rank_sorted(ranked(log)),
        ranked(log).to_multiset() == log.to_multiset(),
        ranked(log).len() == log.len(),
    decreases log.len(),
{
    broadcast use vstd::seq_lib::group_to_multiset_ensures;

    if log.len() > 0 {
        let prev = log.drop_last();
        assert forall|i: int| 0 <= i < prev.len() implies (#[trigger] prev[i]).sequence_number
            == i by {
            assert(prev[i] == log[i]);
        }
        lemma_ranked(prev);
        let b = ranked(prev);
        let x = log.last();
        assert forall|k: int| 0 <= k < b.len() implies (#[trigger] b[k]).sequence_number
            != x.sequence_number by {
            assert(b.to_multiset().count(b[k]) > 0);
            assert(prev.contains(b[k]));
            let m = choose|m: int| 0 <= m < prev.len() && prev[m] == b[k];
            assert(prev[m] == log[m]);
            assert(x == log[log.len() - 1]);
        }
        lemma_insert_ranked(b, x);
        assert(prev.push(x) =~= log);
    } else {
        assert(log =~= Seq::<Submission>::empty());
    }
}

} // verus!
