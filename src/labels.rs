use std::collections::HashMap;
use vstd::prelude::*;
use vstd::string::StringExecFns;

use crate::kmeans::member_count;

verus! {

broadcast use vstd::std_specs::hash::group_hash_axioms;

/// The text of one decimal digit.
pub open spec fn digit_text(d: nat) -> Seq<char> {
    if d == 0 {
        "0"@
    } else if d == 1 {
        "1"@
    } else if d == 2 {
        "2"@
    } else if d == 3 {
        "3"@
    } else if d == 4 {
        "4"@
    } else if d == 5 {
        "5"@
    } else if d == 6 {
        "6"@
    } else if d == 7 {
        "7"@
    } else if d == 8 {
        "8"@
    } else {
        "9"@
    }
}

/// The decimal text of `n`, without leading zeros.
pub open spec fn decimal(n: nat) -> Seq<char>
    decreases n,
{
    if n < 10 {
        digit_text(n)
    } else {
        decimal(n / 10) + digit_text(n % 10)
    }
}

/// The label of cluster `i`: the supplied label at that position, or `Cluster_<i>` past
/// the end of the supplied list.
pub open spec fn cluster_label(labels: Seq<String>, i: int) -> Seq<char> {
    if i < labels.len() {
        labels[i]@
    } else {
        "Cluster_"@ + decimal(i as nat)
    }
}

/// The text of the digit `d`.
fn digit_str(d: usize) -> (r: &'static str)
    requires
        d < 10,
    ensures
        r@ == digit_text(d as nat),
{
    if d == 0 {
        "0"
    } else if d == 1 {
        "1"
    } else if d == 2 {
        "2"
    } else if d == 3 {
        "3"
    } else if d == 4 {
        "4"
    } else if d == 5 {
        "5"
    } else if d == 6 {
        "6"
    } else if d == 7 {
        "7"
    } else if d == 8 {
        "8"
    } else {
        "9"
    }
}

/// Appends the decimal text of `n` to `s`.
fn push_decimal(s: &mut String, n: usize)
    ensures
        final(s)@ == old(s)@ + decimal(n as nat),
    decreases n,
{
    if n >= 10 {
        push_decimal(s, n / 10);
    }
    s.append(digit_str(n % 10));
    proof {
        assert(old(s)@ + decimal(n as nat) =~= if n >= 10 {
            (old(s)@ + decimal((n / 10) as nat)) + digit_text((n % 10) as nat)
        } else {
            old(s)@ + digit_text(n as nat)
        });
    }
}

/// The label given to cluster `i` when the supplied list has none for it.
pub fn default_cluster_label(i: usize) -> (r: String)
    ensures
        r@ == "Cluster_"@ + decimal(i as nat),
{
    let mut s = String::from_str("Cluster_");
    push_decimal(&mut s, i);
    s
}

/// Maps each cluster identifier, the index of its centroid, to a label.
///
/// Identifier `i` takes `labels[i]`; identifiers past the end of `labels` get `Cluster_<i>`.
pub fn map_centroids_to_labels(centroids: &Vec<Vec<i64>>, labels: &Vec<String>) -> (r: HashMap<
    usize,
    String,
>)
    ensures
        forall|i: usize| #[trigger] r@.contains_key(i) <==> i < centroids@.len(),
        forall|i: usize| i < centroids@.len() ==> #[trigger] r@[i]@ == cluster_label(labels@, i as int),
{
    let mut m: HashMap<usize, String> = HashMap::new();
    let mut i: usize = 0;
    while i < centroids.len()
        invariant
            i <= centroids@.len(),
            forall|t: usize| #[trigger] m@.contains_key(t) <==> t < i,
            forall|t: usize| t < i ==> #[trigger] m@[t]@ == cluster_label(labels@, t as int),
        decreases centroids@.len() - i,
    {
        let label = if i < labels.len() {
            labels[i].clone()
        } else {
            default_cluster_label(i)
        };
        m.insert(i, label);
        i = i + 1;
    }
    m
}

/// The label of the cluster that point `point_idx` is assigned to.
///
/// The point must have an assignment, and its cluster a label.
pub fn get_point_label(
    point_idx: usize,
    clusters: &Vec<usize>,
    centroid_labels: &HashMap<usize, String>,
) -> (r: String)
    requires
        point_idx < clusters@.len(),
        centroid_labels@.contains_key(clusters@[point_idx as int]),
    ensures
        r@ == centroid_labels@[clusters@[point_idx as int]]@,
{
    let cluster_idx = clusters[point_idx];
    let label = centroid_labels.get(&cluster_idx).unwrap();
    label.clone()
}

/// No more than `n` of the first `n` entries name a cluster.
proof fn lemma_member_count_le(asg: Seq<usize>, c: int, n: nat)
    requires
        n <= asg.len(),
    ensures
        member_count(asg, c, n) <= n,
    decreases n,
{
    if n > 0 {
        lemma_member_count_le(asg, c, (n - 1) as nat);
    }
}

/// How many points each of the `k` clusters holds; identifiers from `k` on are not counted.
pub fn cluster_counts(clusters: &Vec<usize>, k: usize) -> (r: Vec<usize>)
    ensures
        r@.len() == k,
        forall|c: int| 0 <= c < k ==> #[trigger] r@[c] == member_count(clusters@, c, clusters@.len()),
{
    let mut counts: Vec<usize> = Vec::new();
    let mut c: usize = 0;
    while c < k
        invariant
            c <= k,
            counts@.len() == c,
            forall|t: int| 0 <= t < c ==> #[trigger] counts@[t] == 0,
        decreases k - c,
    {
        counts.push(0);
        c = c + 1;
    }
    let mut i: usize = 0;
    while i < clusters.len()
        invariant
            i <= clusters@.len(),
            counts@.len() == k,
            forall|t: int| 0 <= t < k ==> #[trigger] counts@[t] == member_count(clusters@, t, i as nat),
        decreases clusters@.len() - i,
    {
        let c = clusters[i];
        if c < k {
            proof {
                lemma_member_count_le(clusters@, c as int, i as nat);
            }
            let v = counts[c] + 1;
            counts.set(c, v);
        }
        i = i + 1;
    }
    counts
}

} // verus!
