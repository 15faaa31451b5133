//! The high score board: which scores earn a place, and how a new entry is
//! ranked among the stored ones.
use vstd::prelude::*;

verus! {

broadcast use vstd::seq_lib::group_seq_properties;

/// Largest number of entries the board keeps.
pub const MAX_ENTRIES: usize = 10;

/// One line of the high score board.
///
/// The game speed is a float in Hz; the board only carries it along, so it is
/// held here by its IEEE-754 bit pattern (`f64::to_bits`).
#[derive(Clone, Debug, PartialEq)]
pub struct HighScoreEntry {
    pub name: String,
    pub score: u16,
    pub color: String,
    pub speed_bits: u64,
    pub date: String,
}

/// Whether `score` earns a spot on `board`: there is room left, or it beats
/// the lowest stored score.
pub open spec fn earns_spot(board: Seq<HighScoreEntry>, score: u16) -> bool {
    ||| board.len() < MAX_ENTRIES
    ||| exists|i: int| 0 <= i < board.len() && #[trigger] board[i].score < score
}

/// Scores never increase along the sequence.
pub open spec fn ranked_desc(s: Seq<HighScoreEntry>) -> bool {
    forall|i: int, j: int| 0 <= i < j < s.len() ==> #[trigger] s[i].score >= #[trigger] s[j].score
}

/// Index of the first entry whose score is lower than `score` (the length
/// when there is none).
pub open spec fn first_lower(s: Seq<HighScoreEntry>, score: u16) -> int
    decreases s.len(),
{
    if s.len() == 0 {
        0
    } else if s[0].score < score {
        0
    } else {
        1 + first_lower(s.drop_first(), score)
    }
}

/// Number of entries whose score is at least `score`.
pub open spec fn count_at_least(s: Seq<HighScoreEntry>, score: u16) -> nat
    decreases s.len(),
{
    if s.len() == 0 {
        0
    } else {
        (if s[0].score >= score { 1nat } else { 0nat }) + count_at_least(s.drop_first(), score)
    }
}

/// Places `e` behind every entry that scores at least as much as it does.
pub open spec fn insert_ranked(s: Seq<HighScoreEntry>, e: HighScoreEntry) -> Seq<HighScoreEntry> {
    s.insert(first_lower(s, e.score), e)
}

/// The entries ordered by descending score; entries with equal scores keep
/// the order in which they were given (a stable sort).
pub open spec fn rank(s: Seq<HighScoreEntry>) -> Seq<HighScoreEntry>
    decreases s.len(),
{
    if s.len() == 0 {
        s
    } else {
        insert_ranked(rank(s.drop_last()), s.last())
    }
}

/// The board after `e` is submitted: every entry ranked, cut to
/// `MAX_ENTRIES`.
pub open spec fn board_after(board: Seq<HighScoreEntry>, e: HighScoreEntry) -> Seq<HighScoreEntry> {
    let r = rank(board.push(e));
    if r.len() > MAX_ENTRIES {
        r.take(MAX_ENTRIES as int)
    } else {
        r
    }
}

proof fn lemma_first_lower(s: Seq<HighScoreEntry>, score: u16)
    ensures
        0 <= first_lower(s, score) <= s.len(),
        forall|j: int| 0 <= j < first_lower(s, score) ==> s[j].score >= score,
        first_lower(s, score) < s.len() ==> s[first_lower(s, score)].score < score,
    decreases s.len(),
{
    if s.len() > 0 && s[0].score >= score {
        lemma_first_lower(s.drop_first(), score);
        assert forall|j: int| 0 <= j < first_lower(s, score) implies s[j].score >= score by {
            if j > 0 {
                assert(s[j] == s.drop_first()[j - 1]);
            }
        }
    }
}

proof fn lemma_first_lower_unique(s: Seq<HighScoreEntry>, score: u16, p: int)
    requires
        0 <= p <= s.len(),
        forall|j: int| 0 <= j < p ==> s[j].score >= score,
        p < s.len() ==> s[p].score < score,
    ensures
        first_lower(s, score) == p,
    decreases s.len(),
{
    if s.len() > 0 && p > 0 {
        assert(s[0].score >= score);
        assert forall|j: int| 0 <= j < p - 1 implies s.drop_first()[j].score >= score by {
            assert(s.drop_first()[j] == s[j + 1]);
        }
        lemma_first_lower_unique(s.drop_first(), score, p - 1);
    }
}

proof fn lemma_insert_ranked_keeps_order(s: Seq<HighScoreEntry>, e: HighScoreEntry)
    requires
        ranked_desc(s),
    ensures
        ranked_desc(insert_ranked(s, e)),
        insert_ranked(s, e).len() == s.len() + 1,
        insert_ranked(s, e).to_multiset() == s.to_multiset().insert(e),
{
    lemma_first_lower(s, e.score);
    let p = first_lower(s, e.score);
    let t = insert_ranked(s, e);
    assert forall|i: int, j: int| 0 <= i < j < t.len() implies #[trigger] t[i].score
        >= #[trigger] t[j].score by {
        if j < p {
        } else if j == p {
        } else if i < p {
            assert(s[i].score >= s[j - 1].score);
        } else if i == p {
            assert(s[p].score >= s[j - 1].score);
        } else {
            assert(s[i - 1].score >= s[j - 1].score);
        }
    }
}

proof fn lemma_rank(s: Seq<HighScoreEntry>)
    ensures
        ranked_desc(rank(s)),
        rank(s).len() == s.len(),
        rank(s).to_multiset() == s.to_multiset(),
    decreases s.len(),
{
    if s.len() > 0 {
        lemma_rank(s.drop_last());
        lemma_insert_ranked_keeps_order(rank(s.drop_last()), s.last());
        assert(s.drop_last().push(s.last()) =~= s);
    }
}

proof fn lemma_count_split(s: Seq<HighScoreEntry>, score: u16)
    requires
        s.len() > 0,
    ensures
        count_at_least(s, score) == count_at_least(s.drop_last(), score) + (if s.last().score
            >= score {
            1nat
        } else {
            0nat
        }),
    decreases s.len(),
{
    let d = s.drop_first();
    let l = s.drop_last();
    if s.len() > 1 {
        lemma_count_split(d, score);
        assert(d.drop_last() =~= l.drop_first());
        assert(d.last() == s.last());
        assert(l[0] == s[0]);
        assert(count_at_least(l, score) == (if l[0].score >= score {
            1nat
        } else {
            0nat
        }) + count_at_least(l.drop_first(), score));
    } else {
        assert(d.len() == 0 && l.len() == 0);
        assert(count_at_least(d, score) == 0);
        assert(count_at_least(l, score) == 0);
    }
}

proof fn lemma_count_insert(s: Seq<HighScoreEntry>, p: int, e: HighScoreEntry, score: u16)
    requires
        0 <= p <= s.len(),
    ensures
        count_at_least(s.insert(p, e), score) == count_at_least(s, score) + (if e.score
            >= score {
            1nat
        } else {
            0nat
        }),
    decreases s.len(),
{
    let t = s.insert(p, e);
    if p > 0 {
        lemma_count_insert(s.drop_first(), p - 1, e, score);
        assert(t.drop_first() =~= s.drop_first().insert(p - 1, e));
        assert(t[0] == s[0]);
        assert(count_at_least(t, score) == (if s[0].score >= score {
            1nat
        } else {
            0nat
        }) + count_at_least(t.drop_first(), score));
    } else {
        assert(t.drop_first() =~= s);
        assert(t[0] == e);
        assert(count_at_least(t, score) == (if e.score >= score {
            1nat
        } else {
            0nat
        }) + count_at_least(t.drop_first(), score));
    }
}

proof fn lemma_count_rank(s: Seq<HighScoreEntry>, score: u16)
    ensures
        count_at_least(rank(s), score) == count_at_least(s, score),
    decreases s.len(),
{
    if s.len() > 0 {
        lemma_count_rank(s.drop_last(), score);
        lemma_first_lower(rank(s.drop_last()), s.last().score);
        lemma_rank(s.drop_last());
        lemma_count_insert(
            rank(s.drop_last()),
            first_lower(rank(s.drop_last()), s.last().score),
            s.last(),
            score,
        );
        lemma_count_split(s, score);
    }
}

proof fn lemma_count_none(s: Seq<HighScoreEntry>, score: u16)
    requires
        forall|j: int| 0 <= j < s.len() ==> s[j].score < score,
    ensures
        count_at_least(s, score) == 0,
    decreases s.len(),
{
    if s.len() > 0 {
        assert forall|j: int| 0 <= j < s.drop_first().len() implies s.drop_first()[j].score
            < score by {
            assert(s.drop_first()[j] == s[j + 1]);
        }
        lemma_count_none(s.drop_first(), score);
    }
}

proof fn lemma_first_lower_is_count(t: Seq<HighScoreEntry>, score: u16)
    requires
        ranked_desc(t),
    ensures
        first_lower(t, score) == count_at_least(t, score),
    decreases t.len(),
{
    if t.len() > 0 {
        if t[0].score < score {
            assert forall|j: int| 0 <= j < t.len() implies t[j].score < score by {
                if j > 0 {
                    assert(t[0].score >= t[j].score);
                }
            }
            lemma_count_none(t, score);
        } else {
            assert(ranked_desc(t.drop_first())) by {
                assert forall|i: int, j: int|
                    0 <= i < j < t.drop_first().len() implies #[trigger] t.drop_first()[i].score
                    >= #[trigger] t.drop_first()[j].score by {
                    assert(t[i + 1].score >= t[j + 1].score);
                }
            }
            lemma_first_lower_is_count(t.drop_first(), score);
        }
    }
}

/// Whether an entry has exactly the given score.
pub open spec fn scores_exactly(v: u16) -> spec_fn(HighScoreEntry) -> bool {
    |x: HighScoreEntry| x.score == v
}

proof fn lemma_filter_none(s: Seq<HighScoreEntry>, v: u16)
    requires
        forall|j: int| 0 <= j < s.len() ==> s[j].score != v,
    ensures
        s.filter(scores_exactly(v)) == Seq::<HighScoreEntry>::empty(),
    decreases s.len(),
{
    reveal(Seq::filter);
    if s.len() > 0 {
        assert forall|j: int| 0 <= j < s.drop_last().len() implies s.drop_last()[j].score != v by {
            assert(s.drop_last()[j] == s[j]);
        }
        lemma_filter_none(s.drop_last(), v);
    }
}

proof fn lemma_filter_insert_ranked(t: Seq<HighScoreEntry>, e: HighScoreEntry, v: u16)
    requires
        ranked_desc(t),
    ensures
        insert_ranked(t, e).filter(scores_exactly(v)) == if e.score == v {
            t.filter(scores_exactly(v)).push(e)
        } else {
            t.filter(scores_exactly(v))
        },
{
    reveal(Seq::filter);
    let f = scores_exactly(v);
    lemma_first_lower(t, e.score);
    let p = first_lower(t, e.score);
    let a = t.take(p);
    let b = t.skip(p);
    assert(insert_ranked(t, e) =~= a + seq![e] + b);
    assert(t =~= a + b);
    Seq::filter_distributes_over_add(a + seq![e], b, f);
    Seq::filter_distributes_over_add(a, seq![e], f);
    Seq::filter_distributes_over_add(a, b, f);
    assert(seq![e].drop_last() =~= Seq::<HighScoreEntry>::empty());
    assert(Seq::<HighScoreEntry>::empty().filter(f) =~= Seq::<HighScoreEntry>::empty());
    if e.score == v {
        assert forall|j: int| 0 <= j < b.len() implies b[j].score != v by {
            assert(b[j] == t[p + j]);
            if j > 0 {
                assert(t[p].score >= t[p + j].score);
            }
        }
        lemma_filter_none(b, v);
        assert(seq![e].filter(f) =~= seq![e]);
        assert(a.filter(f) + seq![e] =~= a.filter(f).push(e));
        assert(a.filter(f) + Seq::<HighScoreEntry>::empty() =~= a.filter(f));
    } else {
        assert(seq![e].filter(f) =~= Seq::<HighScoreEntry>::empty());
        assert(a.filter(f) + Seq::<HighScoreEntry>::empty() =~= a.filter(f));
    }
}

/// Ranking is stable: the entries that share a score come out in the order
/// in which they went in.
pub proof fn lemma_rank_is_stable(s: Seq<HighScoreEntry>, v: u16)
    ensures
        rank(s).filter(scores_exactly(v)) == s.filter(scores_exactly(v)),
    decreases s.len(),
{
    reveal(Seq::filter);
    if s.len() > 0 {
        lemma_rank_is_stable(s.drop_last(), v);
        lemma_rank(s.drop_last());
        lemma_filter_insert_ranked(rank(s.drop_last()), s.last(), v);
    }
}

/// Ranking a board that is already in descending order leaves it as it is.
pub proof fn lemma_rank_of_ranked(s: Seq<HighScoreEntry>)
    requires
        ranked_desc(s),
    ensures
        rank(s) == s,
    decreases s.len(),
{
    if s.len() > 0 {
        let d = s.drop_last();
        assert(ranked_desc(d)) by {
            assert forall|i: int, j: int| 0 <= i < j < d.len() implies #[trigger] d[i].score
                >= #[trigger] d[j].score by {
                assert(s[i].score >= s[j].score);
            }
        }
        lemma_rank_of_ranked(d);
        assert forall|j: int| 0 <= j < d.len() implies d[j].score >= s.last().score by {
            assert(s[j].score >= s[s.len() - 1].score);
        }
        lemma_first_lower_unique(d, s.last().score, d.len() as int);
        assert(d.insert(d.len() as int, s.last()) =~= s);
    }
}

/// Submitting an entry never breaks the board: what comes out is in
/// descending order of score, holds at most `MAX_ENTRIES` entries (exactly
/// one more than before, up to that limit), and holds only entries that were
/// on the board or the new one.
pub proof fn lemma_board_after_is_a_board(board: Seq<HighScoreEntry>, e: HighScoreEntry)
    ensures
        ranked_desc(board_after(board, e)),
        board_after(board, e).len() == if board.len() + 1 > MAX_ENTRIES {
            MAX_ENTRIES as int
        } else {
            board.len() + 1int
        },
        board_after(board, e).to_multiset().subset_of(board.push(e).to_multiset()),
{
    let r = rank(board.push(e));
    lemma_rank(board.push(e));
    if r.len() > MAX_ENTRIES {
        let t = r.take(MAX_ENTRIES as int);
        assert(r =~= t + r.skip(MAX_ENTRIES as int));
        vstd::seq_lib::lemma_multiset_commutative(t, r.skip(MAX_ENTRIES as int));
        assert(t.to_multiset().subset_of(r.to_multiset()));
    }
}

/// The new entry lands right behind every board entry that scores at least as
/// much as it does: the ranked board with `e` inserted at that place, cut to
/// `MAX_ENTRIES`.
pub proof fn lemma_entry_lands_at_its_rank(board: Seq<HighScoreEntry>, e: HighScoreEntry)
    ensures
        ({
            let r = rank(board).insert(count_at_least(board, e.score) as int, e);
            board_after(board, e) == if r.len() > MAX_ENTRIES {
                r.take(MAX_ENTRIES as int)
            } else {
                r
            }
        }),
{
    assert(board.push(e).drop_last() =~= board);
    lemma_rank(board);
    lemma_first_lower_is_count(rank(board), e.score);
    lemma_count_rank(board, e.score);
}

/// On a board of at most `MAX_ENTRIES` entries a score qualifies exactly when
/// the entry submitted with it is kept: it then stands at its rank, and
/// otherwise the board comes back ranked with nothing else changed (for a
/// board already in order, unchanged).
pub proof fn lemma_qualifies_iff_kept(board: Seq<HighScoreEntry>, e: HighScoreEntry)
    requires
        board.len() <= MAX_ENTRIES,
    ensures
        earns_spot(board, e.score) <==> count_at_least(board, e.score) < MAX_ENTRIES,
        earns_spot(board, e.score) ==> board_after(board, e)[count_at_least(board, e.score) as int]
            == e,
        !earns_spot(board, e.score) ==> board_after(board, e) == rank(board),
        !earns_spot(board, e.score) && ranked_desc(board) ==> board_after(board, e) == board,
{
    let t = rank(board);
    let p = count_at_least(board, e.score) as int;
    lemma_entry_lands_at_its_rank(board, e);
    lemma_rank(board);
    lemma_first_lower_is_count(t, e.score);
    lemma_count_rank(board, e.score);
    lemma_first_lower(t, e.score);
    if board.len() == MAX_ENTRIES {
        if exists|i: int| 0 <= i < board.len() && #[trigger] board[i].score < e.score {
            let i = choose|i: int| 0 <= i < board.len() && #[trigger] board[i].score < e.score;
            assert(board.to_multiset().count(board[i]) > 0);
            assert(t.contains(board[i]));
            let j = choose|j: int| 0 <= j < t.len() && t[j] == board[i];
            assert(p <= j);
        } else {
            assert forall|j: int| 0 <= j < t.len() implies t[j].score >= e.score by {
                assert(t.to_multiset().count(t[j]) > 0);
                assert(board.contains(t[j]));
            }
            assert(p == t.len());
            assert(t.insert(p, e).take(MAX_ENTRIES as int) =~= t);
        }
    }
    if !earns_spot(board, e.score) && ranked_desc(board) {
        lemma_rank_of_ranked(board);
    }
}

/// Whether `score` would earn a spot on the board: true if there's room left,
/// or the score beats the current lowest entry.
pub fn qualifies(scores: &Vec<HighScoreEntry>, score: u16) -> (r: bool)
    ensures
        r == earns_spot(scores@, score),
{
    if scores.len() < MAX_ENTRIES {
        return true;
    }
    let mut i: usize = 0;
    while i < scores.len()
        invariant
            i <= scores.len(),
            forall|j: int| 0 <= j < i ==> scores@[j].score >= score,
        decreases scores.len() - i,
    {
        if scores[i].score < score {
            assert(scores@[i as int].score < score);
            return true;
        }
        i = i + 1;
    }
    false
}

/// Index of the first entry of `ranked` that scores lower than `score`.
fn insert_position(ranked: &Vec<HighScoreEntry>, score: u16) -> (p: usize)
    ensures
        p == first_lower(ranked@, score),
{
    let mut p: usize = 0;
    while p < ranked.len() && ranked[p].score >= score
        invariant
            p <= ranked.len(),
            forall|j: int| 0 <= j < p ==> ranked@[j].score >= score,
        decreases ranked.len() - p,
    {
        p = p + 1;
    }
    proof {
        lemma_first_lower_unique(ranked@, score, p as int);
    }
    p
}

/// The board after `entry` is submitted: all entries ordered by descending
/// score (equal scores keep their order, the new entry last among them), cut
/// to `MAX_ENTRIES`.
pub fn add_score(scores: Vec<HighScoreEntry>, entry: HighScoreEntry) -> (board: Vec<
    HighScoreEntry,
>)
    ensures
        board@ == board_after(scores@, entry),
{
    let mut pending = scores;
    pending.push(entry);
    let ghost all = pending@;
    let total = pending.len();
    assert(all.len() == total);
    assert(all.skip(0) =~= all);
    let mut ranked: Vec<HighScoreEntry> = Vec::new();
    let mut i: usize = 0;
    while pending.len() > 0
        invariant
            i <= all.len(),
            all.len() <= usize::MAX,
            i + pending.len() == all.len(),
            pending@ == all.skip(i as int),
            ranked@ == rank(all.take(i as int)),
        decreases pending.len(),
    {
        let e = pending.remove(0);
        assert(all.take(i + 1).drop_last() =~= all.take(i as int));
        assert(pending@ =~= all.skip(i + 1));
        let p = insert_position(&ranked, e.score);
        proof {
            lemma_first_lower(ranked@, e.score);
        }
        ranked.insert(p, e);
        i = i + 1;
    }
    assert(all.take(all.len() as int) =~= all);
    ranked.truncate(MAX_ENTRIES);
    ranked
}

} // verus!
