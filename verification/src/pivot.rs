use vstd::prelude::*;

verus! {

/// The values of a list of strings.
pub open spec fn texts(v: Seq<String>) -> Seq<Seq<char>> {
    v.map_values(|s: String| s@)
}

/// The distinct labels of `s` in the order of their first appearance.
pub open spec fn first_seen(s: Seq<Seq<char>>) -> Seq<Seq<char>>
    decreases s.len(),
{
    if s.len() == 0 {
        Seq::empty()
    } else {
        let d = first_seen(s.drop_last());
        if d.contains(s.last()) {
            d
        } else {
            d.push(s.last())
        }
    }
}

/// `idx` numbers the labels of `s` from 1 by `distinct`: the label of
/// `s[k]` sits at position `idx[k] - 1` of `distinct`.
pub open spec fn numbered_by(s: Seq<Seq<char>>, distinct: Seq<Seq<char>>, idx: Seq<u32>) -> bool {
    &&& idx.len() == s.len()
    &&& forall|k: int|
        0 <= k < s.len() ==> 1 <= #[trigger] idx[k] <= distinct.len() && distinct[idx[k] - 1] == s[k]
}

/// Numbers the labels of `labels` from 1 in the order of their first
/// appearance; returns the number of each label and the distinct labels.
pub fn label_indices(labels: &Vec<String>) -> (res: (Vec<u32>, Vec<String>))
    requires
        labels.len() < u32::MAX,
    ensures
        texts(res.1@) == first_seen(texts(labels@)),
        texts(res.1@).no_duplicates(),
        res.1.len() <= labels.len(),
        numbered_by(texts(labels@), texts(res.1@), res.0@),
{
    let ghost ls = texts(labels@);
    let mut idx: Vec<u32> = Vec::new();
    let mut distinct: Vec<String> = Vec::new();
    let mut k: usize = 0;
    while k < labels.len()
        invariant
            ls == texts(labels@),
            labels.len() < u32::MAX,
            k <= labels.len(),
            distinct.len() <= k,
            texts(distinct@) == first_seen(ls.take(k as int)),
            texts(distinct@).no_duplicates(),
            numbered_by(ls.take(k as int), texts(distinct@), idx@),
        decreases labels.len() - k,
    {
        let ghost d0 = texts(distinct@);
        proof {
            assert(ls.take(k + 1).drop_last() =~= ls.take(k as int));
            assert(ls.take(k + 1).last() == labels@[k as int]@);
        }
        let mut j: usize = 0;
        while j < distinct.len()
            invariant_except_break
                j <= distinct.len(),
                k < labels.len(),
                d0 == texts(distinct@),
                forall|q: int| 0 <= q < j ==> d0[q] != labels@[k as int]@,
            ensures
                j <= distinct.len(),
                j < distinct.len() ==> d0[j as int] == labels@[k as int]@,
                forall|q: int| 0 <= q < j ==> d0[q] != labels@[k as int]@,
            decreases distinct.len() - j,
        {
            if distinct[j] == labels[k] {
                break;
            }
            j = j + 1;
        }
        if j < distinct.len() {
            idx.push((j + 1) as u32);
            proof {
                assert(d0[j as int] == labels@[k as int]@);
                assert(d0.contains(labels@[k as int]@));
                assert(texts(distinct@) == first_seen(ls.take(k + 1)));
                assert forall|q: int| 0 <= q < k + 1 implies 1 <= #[trigger] idx@[q] <= d0.len()
                    && d0[idx@[q] - 1] == ls.take(k + 1)[q] by {
                    if q < k {
                        assert(ls.take(k + 1)[q] == ls.take(k as int)[q]);
                    }
                }
            }
        } else {
            distinct.push(labels[k].clone());
            idx.push(distinct.len() as u32);
            proof {
                assert(!d0.contains(labels@[k as int]@));
                assert(texts(distinct@) =~= d0.push(labels@[k as int]@));
                assert forall|q: int| 0 <= q < k + 1 implies 1 <= #[trigger] idx@[q] <= texts(
                    distinct@,
                ).len() && texts(distinct@)[idx@[q] - 1] == ls.take(k + 1)[q] by {
                    if q < k {
                        assert(ls.take(k + 1)[q] == ls.take(k as int)[q]);
                    }
                }
            }
        }
        k = k + 1;
    }
    proof {
        assert(ls.take(labels.len() as int) =~= ls);
    }
    (idx, distinct)
}

} // verus!
