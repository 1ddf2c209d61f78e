use vstd::prelude::*;

verus! {

/// The largest number of workers a run uses.
pub const MAX_WORKERS: usize = 8;

/// The number of workers for a corpus of `n` documents.
pub open spec fn workers_for(n: nat) -> nat {
    if n < MAX_WORKERS {
        n
    } else {
        MAX_WORKERS as nat
    }
}

/// The views of a vector of queues.
pub open spec fn queues_view(v: Seq<Vec<usize>>) -> Seq<Seq<usize>> {
    v.map_values(|q: Vec<usize>| q@)
}

/// `r` holds `w` queues over documents `0..n`, dealt round-robin: document
/// `i` is the `i / w`-th item of queue `i % w`.
pub open spec fn is_round_robin(r: Seq<Seq<usize>>, n: nat, w: nat) -> bool {
    &&& r.len() == w
    &&& forall|q: int, k: int|
        0 <= q < w && 0 <= k < r[q].len() ==> r[q][k] as int == k * w + q
    &&& forall|q: int|
        0 <= q < w ==> #[trigger] r[q].len() == (if q < n % w {
            n / w + 1
        } else {
            n / w
        })
}

/// The number of workers for a corpus of `n` documents.
pub fn worker_count(n: usize) -> (r: usize)
    ensures
        r == workers_for(n as nat),
{
    if n < MAX_WORKERS {
        n
    } else {
        MAX_WORKERS
    }
}

/// Deals documents `0..n` round-robin over `w` queues.
pub fn round_robin(n: usize, w: usize) -> (r: Vec<Vec<usize>>)
    requires
        w > 0,
    ensures
        is_round_robin(queues_view(r@), n as nat, w as nat),
{
    let mut queues: Vec<Vec<usize>> = Vec::new();
    let mut q: usize = 0;
    while q < w
        invariant
            q <= w,
            queues@.len() == q,
            forall|a: int| 0 <= a < q ==> (#[trigger] queues@[a])@.len() == 0,
        decreases w - q,
    {
        queues.push(Vec::new());
        q = q + 1;
    }
    let mut i: usize = 0;
    let mut cur: usize = 0;
    let ghost mut round: int = 0;
    while i < n
        invariant
            i <= n,
            w > 0,
            cur < w,
            queues@.len() == w,
            i as int == round * w + cur,
            round >= 0,
            forall|a: int, k: int|
                0 <= a < w && 0 <= k < queues@[a]@.len() ==> queues@[a]@[k] as int == k * w + a,
            forall|a: int|
                0 <= a < w ==> (#[trigger] queues@[a])@.len() == (if a < cur {
                    round + 1
                } else {
                    round
                }),
        decreases n - i,
    {
        let ghost before = queues@;
        let mut item: Vec<usize> = Vec::new();
        std::mem::swap(&mut item, &mut queues[cur]);
        item.push(i);
        std::mem::swap(&mut item, &mut queues[cur]);
        proof {
            assert(queues@ == before.update(cur as int, queues@[cur as int]));
            assert(queues@[cur as int]@ == before[cur as int]@.push(i));
        }
        i = i + 1;
        cur = cur + 1;
        if cur == w {
            cur = 0;
            proof {
                assert((round + 1) * w == round * w + w) by (nonlinear_arith);
                round = round + 1;
            }
        }
        proof {
            assert forall|a: int, k: int|
                0 <= a < w && 0 <= k < queues@[a]@.len() implies queues@[a]@[k] as int == k * w
                + a by {
                if a != (if cur == 0 {
                    w - 1
                } else {
                    cur - 1
                }) {
                    assert(queues@[a] == before[a]);
                }
            };
        }
    }
    proof {
        let v = queues_view(queues@);
        assert(n as int == round * w + cur);
        assert((n as nat) / (w as nat) == round && (n as nat) % (w as nat) == cur) by (nonlinear_arith)
            requires
                n as int == round * w + cur,
                0 <= cur < w,
                round >= 0,
        ;
        assert forall|a: int| 0 <= a < w implies #[trigger] v[a].len() == (if a < (n as nat) % (w as nat) {
            (n as nat) / (w as nat) + 1
        } else {
            (n as nat) / (w as nat)
        }) by {
            assert(v[a] == queues@[a]@);
        };
        assert forall|a: int, k: int| 0 <= a < w && 0 <= k < v[a].len() implies v[a][k] as int == k
            * w + a by {
            assert(v[a] == queues@[a]@);
        };
    }
    queues
}

/// The queues of a run over `n` documents: as many as `worker_count(n)`,
/// dealt round-robin.
pub fn distribute(n: usize) -> (r: Vec<Vec<usize>>)
    ensures
        is_round_robin(queues_view(r@), n as nat, workers_for(n as nat)),
{
    let w = worker_count(n);
    if w == 0 {
        let r: Vec<Vec<usize>> = Vec::new();
        proof {
            assert(queues_view(r@) =~= Seq::<Seq<usize>>::empty());
        }
        r
    } else {
        round_robin(n, w)
    }
}

} // verus!
