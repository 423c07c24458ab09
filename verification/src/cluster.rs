//! Clustering of equity distributions into buckets.
//!
//! The method is k-means with fixed seeds: the first centres are rows of the
//! data picked at even steps from a seed, every row goes to the nearest centre,
//! each centre moves to the mean of its rows, and this is repeated a given
//! number of times. The distance of two distributions is the sum of the
//! differences of their bins (the Manhattan metric); of centres at the same
//! distance the first wins. Nothing is drawn at random, so the same data, seed
//! and rounds always give the same buckets.

use vstd::prelude::*;

verus! {

/// The count in a bin, zero beyond the end of the row.
pub open spec fn value_at(row: Seq<u64>, bin: int) -> int {
    if 0 <= bin < row.len() {
        row[bin] as int
    } else {
        0
    }
}

/// The difference of two counts.
pub open spec fn gap(a: int, b: int) -> int {
    if a >= b {
        a - b
    } else {
        b - a
    }
}

/// The summed differences of the first `n` bins.
pub open spec fn distance_upto(a: Seq<u64>, b: Seq<u64>, n: int) -> int
    decreases n,
{
    if n <= 0 {
        0
    } else {
        distance_upto(a, b, n - 1) + gap(value_at(a, n - 1), value_at(b, n - 1))
    }
}

/// The distance of two rows: the summed differences of all their bins.
pub open spec fn distance(a: Seq<u64>, b: Seq<u64>) -> int {
    distance_upto(
        a,
        b,
        if a.len() >= b.len() {
            a.len() as int
        } else {
            b.len() as int
        },
    )
}

/// The first of the first `n` centres that is nearest to the row.
pub open spec fn nearest_upto(centres: Seq<Seq<u64>>, row: Seq<u64>, n: int) -> int
    decreases n,
{
    if n <= 1 {
        0
    } else if distance(centres[n - 1], row) < distance(
        centres[nearest_upto(centres, row, n - 1)],
        row,
    ) {
        n - 1
    } else {
        nearest_upto(centres, row, n - 1)
    }
}

/// The first centre that is nearest to the row.
pub open spec fn nearest(centres: Seq<Seq<u64>>, row: Seq<u64>) -> int {
    nearest_upto(centres, row, centres.len() as int)
}

/// The centre of each row.
pub open spec fn assignment(centres: Seq<Seq<u64>>, rows: Seq<Seq<u64>>) -> Seq<usize> {
    Seq::new(rows.len(), |i: int| nearest(centres, rows[i]) as usize)
}

/// The number of the first `n` rows that belong to a centre.
pub open spec fn member_count(owners: Seq<usize>, centre: int, n: int) -> int
    decreases n,
{
    if n <= 0 {
        0
    } else {
        member_count(owners, centre, n - 1) + if owners[n - 1] == centre {
            1int
        } else {
            0int
        }
    }
}

/// The sum of one bin over those of the first `n` rows that belong to a centre.
pub open spec fn member_sum(
    rows: Seq<Seq<u64>>,
    owners: Seq<usize>,
    centre: int,
    bin: int,
    n: int,
) -> int
    decreases n,
{
    if n <= 0 {
        0
    } else {
        member_sum(rows, owners, centre, bin, n - 1) + if owners[n - 1] == centre {
            value_at(rows[n - 1], bin)
        } else {
            0
        }
    }
}

/// One bin of the moved centre: the mean of the bin over the centre's rows,
/// rounded down, or the bin as it was where the centre has no row.
pub open spec fn mean_at(
    rows: Seq<Seq<u64>>,
    owners: Seq<usize>,
    centre: int,
    bin: int,
    old: Seq<u64>,
) -> u64 {
    let count = member_count(owners, centre, rows.len() as int);
    let sum = member_sum(rows, owners, centre, bin, rows.len() as int);
    if count <= 0 {
        old[bin]
    } else if sum / count > u64::MAX {
        u64::MAX
    } else {
        (sum / count) as u64
    }
}

/// The centres after each has moved to the mean of its rows.
pub open spec fn moved(rows: Seq<Seq<u64>>, centres: Seq<Seq<u64>>) -> Seq<Seq<u64>> {
    let owners = assignment(centres, rows);
    Seq::new(
        centres.len(),
        |j: int| Seq::new(centres[j].len(), |bin: int| mean_at(rows, owners, j, bin, centres[j])),
    )
}

/// The centres after a number of rounds.
pub open spec fn refined(rows: Seq<Seq<u64>>, centres: Seq<Seq<u64>>, rounds: nat) -> Seq<Seq<u64>>
    decreases rounds,
{
    if rounds == 0 {
        centres
    } else {
        refined(rows, moved(rows, centres), (rounds - 1) as nat)
    }
}

/// The step between two seed rows.
pub open spec fn seed_step(n: int, buckets: int) -> int {
    if n / buckets == 0 {
        1
    } else {
        n / buckets
    }
}

/// The row that is the first centre of a bucket.
pub open spec fn seed_row(n: int, buckets: int, seed: int, bucket: int) -> int {
    (seed % n + bucket * seed_step(n, buckets)) % n
}

/// The first centres.
pub open spec fn seeds(rows: Seq<Seq<u64>>, buckets: nat, seed: u64) -> Seq<Seq<u64>> {
    Seq::new(
        buckets,
        |j: int| rows[seed_row(rows.len() as int, buckets as int, seed as int, j)],
    )
}

/// The bucket of each row.
pub open spec fn cluster_buckets(rows: Seq<Seq<u64>>, buckets: nat, seed: u64, rounds: nat) -> Seq<
    usize,
> {
    if rows.len() == 0 {
        Seq::empty()
    } else {
        assignment(refined(rows, seeds(rows, buckets, seed), rounds), rows)
    }
}

/// The rows that a list of keyed rows holds.
pub open spec fn data_rows(data: Seq<(u64, Vec<u64>)>) -> Seq<Seq<u64>> {
    Seq::new(data.len(), |i: int| data[i].1@)
}

/// The rows that a vector of vectors holds.
pub open spec fn centre_rows(centres: Seq<Vec<u64>>) -> Seq<Seq<u64>> {
    Seq::new(centres.len(), |i: int| centres[i]@)
}

/// The nearest centre is a centre, none is nearer, and none before it is as near.
pub proof fn lemma_nearest(centres: Seq<Seq<u64>>, row: Seq<u64>, n: int)
    requires
        1 <= n <= centres.len(),
    ensures
        0 <= nearest_upto(centres, row, n) < n,
        forall|i: int|
            0 <= i < n ==> distance(centres[nearest_upto(centres, row, n)], row) <= distance(
                #[trigger] centres[i],
                row,
            ),
        forall|i: int|
            0 <= i < nearest_upto(centres, row, n) ==> distance(
                centres[nearest_upto(centres, row, n)],
                row,
            ) < distance(#[trigger] centres[i], row),
    decreases n,
{
    if n > 1 {
        lemma_nearest(centres, row, n - 1);
    }
}

/// The distance of two rows.
pub fn row_distance(a: &Vec<u64>, b: &Vec<u64>) -> (d: u128)
    ensures
        d == distance(a@, b@),
{
    let n = if a.len() >= b.len() {
        a.len()
    } else {
        b.len()
    };
    let mut d: u128 = 0;
    let mut i: usize = 0;
    while i < n
        invariant
            i <= n,
            d == distance_upto(a@, b@, i as int),
            d <= i * 0xFFFF_FFFF_FFFF_FFFF,
        decreases n - i,
    {
        let x: u64 = if i < a.len() {
            a[i]
        } else {
            0
        };
        let y: u64 = if i < b.len() {
            b[i]
        } else {
            0
        };
        let g: u64 = if x >= y {
            x - y
        } else {
            y - x
        };
        d = d + g as u128;
        i = i + 1;
    }
    d
}

/// The first centre that is nearest to the row.
pub fn nearest_centre(centres: &Vec<Vec<u64>>, row: &Vec<u64>) -> (best: usize)
    requires
        centres@.len() > 0,
    ensures
        best == nearest(centre_rows(centres@), row@),
        best < centres@.len(),
{
    let ghost rows = centre_rows(centres@);
    let mut best: usize = 0;
    let mut best_distance = row_distance(&centres[0], row);
    let mut j: usize = 1;
    while j < centres.len()
        invariant
            1 <= j <= centres@.len(),
            rows == centre_rows(centres@),
            best == nearest_upto(rows, row@, j as int),
            best < j,
            best_distance == distance(rows[best as int], row@),
        decreases centres@.len() - j,
    {
        let d = row_distance(&centres[j], row);
        if d < best_distance {
            best = j;
            best_distance = d;
        }
        j = j + 1;
    }
    best
}

/// The centre of each row.
pub fn assign_rows(centres: &Vec<Vec<u64>>, data: &Vec<(u64, Vec<u64>)>) -> (owners: Vec<usize>)
    requires
        centres@.len() > 0,
    ensures
        owners@ == assignment(centre_rows(centres@), data_rows(data@)),
        forall|i: int| 0 <= i < owners@.len() ==> #[trigger] owners@[i] < centres@.len(),
{
    let mut owners: Vec<usize> = Vec::new();
    let mut i: usize = 0;
    while i < data.len()
        invariant
            i <= data@.len(),
            centres@.len() > 0,
            owners@.len() == i,
            forall|p: int|
                0 <= p < i ==> #[trigger] owners@[p] == nearest(
                    centre_rows(centres@),
                    data_rows(data@)[p],
                ) && owners@[p] < centres@.len(),
        decreases data@.len() - i,
    {
        owners.push(nearest_centre(centres, &data[i].1));
        i = i + 1;
    }
    proof {
        assert(owners@ =~= assignment(centre_rows(centres@), data_rows(data@)));
    }
    owners
}

/// A centre after it has moved to the mean of its rows.
fn move_centre(
    data: &Vec<(u64, Vec<u64>)>,
    owners: &Vec<usize>,
    centre: usize,
    old: &Vec<u64>,
) -> (mean: Vec<u64>)
    requires
        owners@.len() == data@.len(),
    ensures
        mean@.len() == old@.len(),
        forall|bin: int|
            0 <= bin < old@.len() ==> #[trigger] mean@[bin] == mean_at(
                data_rows(data@),
                owners@,
                centre as int,
                bin,
                old@,
            ),
{
    let ghost rows = data_rows(data@);
    let mut count: usize = 0;
    let mut i: usize = 0;
    while i < data.len()
        invariant
            i <= data@.len(),
            owners@.len() == data@.len(),
            count == member_count(owners@, centre as int, i as int),
            count <= i,
        decreases data@.len() - i,
    {
        if owners[i] == centre {
            count = count + 1;
        }
        i = i + 1;
    }
    let mut mean: Vec<u64> = Vec::new();
    let mut bin: usize = 0;
    while bin < old.len()
        invariant
            bin <= old@.len(),
            owners@.len() == data@.len(),
            rows == data_rows(data@),
            count == member_count(owners@, centre as int, data@.len() as int),
            mean@.len() == bin,
            forall|b: int|
                0 <= b < bin ==> #[trigger] mean@[b] == mean_at(
                    rows,
                    owners@,
                    centre as int,
                    b,
                    old@,
                ),
        decreases old@.len() - bin,
    {
        if count == 0 {
            mean.push(old[bin]);
        } else {
            let mut sum: u128 = 0;
            let mut r: usize = 0;
            while r < data.len()
                invariant
                    r <= data@.len(),
                    owners@.len() == data@.len(),
                    rows == data_rows(data@),
                    sum == member_sum(rows, owners@, centre as int, bin as int, r as int),
                    sum <= r * 0xFFFF_FFFF_FFFF_FFFF,
                decreases data@.len() - r,
            {
                if owners[r] == centre {
                    let x: u64 = if bin < data[r].1.len() {
                        data[r].1[bin]
                    } else {
                        0
                    };
                    assert(x == value_at(rows[r as int], bin as int));
                    sum = sum + x as u128;
                }
                r = r + 1;
            }
            let quotient: u128 = sum / (count as u128);
            if quotient > 0xFFFF_FFFF_FFFF_FFFF {
                mean.push(0xFFFF_FFFF_FFFF_FFFF);
            } else {
                mean.push(quotient as u64);
            }
        }
        bin = bin + 1;
    }
    mean
}

/// The centres after each has moved to the mean of its rows.
pub fn move_centres(data: &Vec<(u64, Vec<u64>)>, centres: &Vec<Vec<u64>>) -> (next: Vec<Vec<u64>>)
    requires
        centres@.len() > 0,
    ensures
        centre_rows(next@) == moved(data_rows(data@), centre_rows(centres@)),
        next@.len() == centres@.len(),
{
    let owners = assign_rows(centres, data);
    let ghost rows = data_rows(data@);
    let ghost before = centre_rows(centres@);
    let mut next: Vec<Vec<u64>> = Vec::new();
    let mut j: usize = 0;
    while j < centres.len()
        invariant
            j <= centres@.len(),
            rows == data_rows(data@),
            before == centre_rows(centres@),
            owners@ == assignment(before, rows),
            owners@.len() == data@.len(),
            next@.len() == j,
            forall|c: int|
                0 <= c < j ==> (#[trigger] next@[c])@ == Seq::new(
                    before[c].len(),
                    |bin: int| mean_at(rows, owners@, c, bin, before[c]),
                ),
        decreases centres@.len() - j,
    {
        let mean = move_centre(data, &owners, j, &centres[j]);
        proof {
            assert(mean@ =~= Seq::new(
                before[j as int].len(),
                |bin: int| mean_at(rows, owners@, j as int, bin, before[j as int]),
            ));
        }
        next.push(mean);
        j = j + 1;
    }
    proof {
        assert(centre_rows(next@) =~= moved(rows, before));
    }
    next
}

/// The first centres: rows of the data at even steps from the seed.
pub fn seed_centres(data: &Vec<(u64, Vec<u64>)>, buckets: usize, seed: u64) -> (centres: Vec<Vec<u64>>)
    requires
        data@.len() > 0,
        buckets > 0,
    ensures
        centre_rows(centres@) == seeds(data_rows(data@), buckets as nat, seed),
        centres@.len() == buckets,
{
    let n: u128 = data.len() as u128;
    let step: u128 = if n / (buckets as u128) == 0 {
        1
    } else {
        n / (buckets as u128)
    };
    let start: u128 = (seed as u128) % n;
    let mut centres: Vec<Vec<u64>> = Vec::new();
    let mut j: usize = 0;
    while j < buckets
        invariant
            j <= buckets,
            n == data@.len(),
            n > 0,
            n <= usize::MAX,
            n <= 0xFFFF_FFFF_FFFF_FFFF,
            step == seed_step(n as int, buckets as int),
            0 < step <= n,
            start == (seed as int) % (n as int),
            centres@.len() == j,
            forall|c: int|
                0 <= c < j ==> (#[trigger] centres@[c])@ == data_rows(data@)[seed_row(
                    n as int,
                    buckets as int,
                    seed as int,
                    c,
                )],
        decreases buckets - j,
    {
        assert((j as u128) * step <= 0xFFFF_FFFF_FFFF_FFFF * 0xFFFF_FFFF_FFFF_FFFF) by (nonlinear_arith)
            requires
                j <= 0xFFFF_FFFF_FFFF_FFFF,
                0 <= step <= 0xFFFF_FFFF_FFFF_FFFF,
        ;
        assert(start < n);
        let at: u128 = (start + (j as u128) * step) % n;
        assert(at == seed_row(n as int, buckets as int, seed as int, j as int));
        let row = copy_row(&data[at as usize].1);
        centres.push(row);
        j = j + 1;
    }
    proof {
        assert(centre_rows(centres@) =~= seeds(data_rows(data@), buckets as nat, seed));
    }
    centres
}

/// A copy of a row.
fn copy_row(row: &Vec<u64>) -> (copy: Vec<u64>)
    ensures
        copy@ == row@,
{
    let mut copy: Vec<u64> = Vec::new();
    let mut i: usize = 0;
    while i < row.len()
        invariant
            i <= row@.len(),
            copy@ == row@.take(i as int),
        decreases row@.len() - i,
    {
        copy.push(row[i]);
        proof {
            assert(copy@ =~= row@.take(i + 1));
        }
        i = i + 1;
    }
    proof {
        assert(row@.take(i as int) =~= row@);
    }
    copy
}

/// Gives every keyed row a bucket below `buckets`, so that rows that are alike
/// share a bucket.
pub fn cluster(
    data: &Vec<(u64, Vec<u64>)>,
    buckets: usize,
    seed: u64,
    rounds: usize,
) -> (result: Vec<(u64, i32)>)
    requires
        0 < buckets <= 0x7FFF_FFFF,
    ensures
        result@.len() == data@.len(),
        forall|i: int|
            0 <= i < data@.len() ==> (#[trigger] result@[i]).0 == data@[i].0 && result@[i].1
                == cluster_buckets(data_rows(data@), buckets as nat, seed, rounds as nat)[i]
                && 0 <= result@[i].1 < buckets,
{
    let mut result: Vec<(u64, i32)> = Vec::new();
    if data.len() == 0 {
        return result;
    }
    let ghost rows = data_rows(data@);
    let mut centres = seed_centres(data, buckets, seed);
    let mut round: usize = 0;
    while round < rounds
        invariant
            round <= rounds,
            rows == data_rows(data@),
            centres@.len() == buckets,
            buckets > 0,
            refined(rows, centre_rows(centres@), (rounds - round) as nat) == refined(
                rows,
                seeds(rows, buckets as nat, seed),
                rounds as nat,
            ),
        decreases rounds - round,
    {
        centres = move_centres(data, &centres);
        round = round + 1;
    }
    let owners = assign_rows(&centres, data);
    let mut i: usize = 0;
    while i < data.len()
        invariant
            i <= data@.len(),
            owners@.len() == data@.len(),
            buckets <= 0x7FFF_FFFF,
            centres@.len() == buckets,
            forall|p: int| 0 <= p < owners@.len() ==> #[trigger] owners@[p] < centres@.len(),
            result@.len() == i,
            forall|p: int|
                0 <= p < i ==> (#[trigger] result@[p]).0 == data@[p].0 && result@[p].1
                    == owners@[p],
        decreases data@.len() - i,
    {
        result.push((data[i].0, owners[i] as i32));
        i = i + 1;
    }
    result
}

} // verus!
