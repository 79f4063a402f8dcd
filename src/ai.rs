use vstd::prelude::*;
use crate::logic::Direction;
use crate::platform::Platform;

verus! {

/// The largest weight among the options, 0 when there are none.
pub open spec fn top_weight(options: Seq<(u64, usize, Direction)>) -> int
    decreases options.len(),
{
    if options.len() == 0 {
        0
    } else {
        let prev = top_weight(options.drop_last());
        if options.last().0 > prev {
            options.last().0 as int
        } else {
            prev
        }
    }
}

/// The sum of the weights of the options.
pub open spec fn total_weight(options: Seq<(u64, usize, Direction)>) -> int
    decreases options.len(),
{
    if options.len() == 0 {
        0
    } else {
        total_weight(options.drop_last()) + options.last().0
    }
}

/// The moves of the first `k` options whose weight is `w`, in order.
pub open spec fn moves_weighing(options: Seq<(u64, usize, Direction)>, w: int, k: nat) -> Seq<(usize, Direction)>
    decreases k,
{
    if k == 0 {
        seq![]
    } else {
        let prev = moves_weighing(options, w, (k - 1) as nat);
        if options[k - 1].0 == w {
            prev.push((options[k - 1].1, options[k - 1].2))
        } else {
            prev
        }
    }
}

/// The moves of greatest weight, in order.
pub open spec fn best_options(options: Seq<(u64, usize, Direction)>) -> Seq<(usize, Direction)> {
    moves_weighing(options, top_weight(options), options.len())
}

pub proof fn lemma_top_weight_attained(options: Seq<(u64, usize, Direction)>)
    requires
        options.len() > 0,
    ensures
        moves_weighing(options, top_weight(options), options.len()).len() > 0,
        forall|j: int| 0 <= j < options.len() ==> options[j].0 <= top_weight(options),
    decreases options.len(),
{
    let n = options.len();
    let prefix = options.drop_last();
    let top = top_weight(options);
    let last = options[n - 1].0;
    if n == 1 {
        assert(top_weight(prefix) == 0);
        assert(options[n - 1].0 == top);
    } else {
        lemma_top_weight_attained(prefix);
        let t = top_weight(prefix);
        if last > t {
            assert(options[n - 1].0 == top);
        } else {
            assert(top == t);
            lemma_moves_weighing_nonempty(prefix, options, t, (n - 1) as nat);
            assert(moves_weighing(options, top, (n - 1) as nat).len() > 0);
        }
        assert forall|j: int| 0 <= j < n implies options[j].0 <= top by {
            if j < n - 1 {
                assert(options[j] == prefix[j]);
            }
        }
    }
}

/// Every move kept by `moves_weighing` comes from an option of that weight.
pub proof fn lemma_moves_weighing_source(options: Seq<(u64, usize, Direction)>, w: int, k: nat, m: (usize, Direction))
    requires
        k <= options.len(),
        moves_weighing(options, w, k).contains(m),
    ensures
        exists|j: int| 0 <= j < k && options[j].0 == w && options[j].1 == m.0 && options[j].2 == m.1,
    decreases k,
{
    let prev = moves_weighing(options, w, (k - 1) as nat);
    if options[k - 1].0 == w && (options[k - 1].1, options[k - 1].2) == m {
        assert(options[k - 1].1 == m.0);
    } else {
        if options[k - 1].0 == w {
            let full = prev.push((options[k - 1].1, options[k - 1].2));
            let i = choose|i: int| 0 <= i < full.len() && #[trigger] full[i] == m;
            assert(i < prev.len());
            assert(prev[i] == m);
        }
        assert(prev.contains(m));
        lemma_moves_weighing_source(options, w, (k - 1) as nat, m);
    }
}

proof fn lemma_moves_weighing_nonempty(prefix: Seq<(u64, usize, Direction)>, options: Seq<(u64, usize, Direction)>, w: int, k: nat)
    requires
        k <= prefix.len(),
        prefix.len() < options.len(),
        forall|j: int| 0 <= j < prefix.len() ==> prefix[j] == options[j],
    ensures
        moves_weighing(prefix, w, k) == moves_weighing(options, w, k),
    decreases k,
{
    if k > 0 {
        lemma_moves_weighing_nonempty(prefix, options, w, (k - 1) as nat);
    }
}

/// The moves that share the greatest weight, in order.
pub fn best_moves_from_vec(options: &Vec<(u64, usize, Direction)>) -> (r: Vec<(usize, Direction)>)
    ensures
        r@ == best_options(options@),
        options@.len() > 0 ==> r@.len() > 0,
{
    let n = options.len();
    let mut best_score: u64 = 0;
    let mut i: usize = 0;
    while i < n
        invariant
            n == options@.len(),
            i <= n,
            best_score == top_weight(options@.take(i as int)),
        decreases n - i,
    {
        assert(options@.take(i + 1).drop_last() == options@.take(i as int));
        if options[i].0 > best_score {
            best_score = options[i].0;
        }
        i = i + 1;
    }
    assert(options@.take(n as int) == options@);
    let mut best: Vec<(usize, Direction)> = Vec::new();
    let mut k: usize = 0;
    while k < n
        invariant
            n == options@.len(),
            k <= n,
            best_score == top_weight(options@),
            best@ == moves_weighing(options@, best_score as int, k as nat),
        decreases n - k,
    {
        if options[k].0 == best_score {
            best.push((options[k].1, options[k].2));
        }
        k = k + 1;
    }
    proof {
        if n > 0 {
            lemma_top_weight_attained(options@);
        }
    }
    best
}

/// One of the moves of greatest weight, drawn at random.
pub fn best_move_from_vec<O: Platform>(options: &Vec<(u64, usize, Direction)>) -> (r: (usize, Direction))
    requires
        options@.len() > 0,
    ensures
        best_options(options@).contains(r),
{
    let best = best_moves_from_vec(options);
    let pick = O::random_below(best.len());
    best[pick]
}

} // verus!
