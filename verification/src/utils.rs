//! Choosing one item from each of several sources.

use vstd::prelude::*;

verus! {

/// `tails`, each with `head` put in front, in the order of `tails`.
pub open spec fn prepend_each<T>(head: T, tails: Seq<Seq<T>>) -> Seq<Seq<T>> {
    Seq::new(tails.len(), |k: int| seq![head] + tails[k])
}

/// Every way to put one of `heads` in front of one of `tails`: the first of
/// `heads` with each of `tails`, then the second, and so on.
pub open spec fn cross<T>(heads: Seq<T>, tails: Seq<Seq<T>>) -> Seq<Seq<T>>
    decreases heads.len(),
{
    if heads.len() == 0 {
        Seq::empty()
    } else {
        cross(heads.drop_last(), tails) + prepend_each(heads.last(), tails)
    }
}

/// Every way to choose one item from each source, in the order of the
/// sources. No sources leave one choice, the empty one. The choices are
/// ordered by their first item's place in the first source, then by their
/// second item's place in the second, and so on.
pub open spec fn selections_spec<T>(sources: Seq<Seq<T>>) -> Seq<Seq<T>>
    decreases sources.len(),
{
    if sources.len() == 0 {
        seq![Seq::empty()]
    } else {
        cross(sources[0], selections_spec(sources.drop_first()))
    }
}

/// What each inner vector holds, as a sequence of sequences.
pub open spec fn rows<T>(sources: Seq<Vec<T>>) -> Seq<Seq<T>> {
    Seq::new(sources.len(), |i: int| sources[i]@)
}

/// `got` holds a clone of each item of `want`, position by position.
pub open spec fn cloned_rows<T: Clone>(want: Seq<Seq<T>>, got: Seq<Seq<T>>) -> bool {
    &&& got.len() == want.len()
    &&& forall|k: int| 0 <= k < want.len() ==> (#[trigger] got[k]).len() == want[k].len()
    &&& forall|k: int, j: int|
        0 <= k < want.len() && 0 <= j < want[k].len() ==> cloned::<T>(
            #[trigger] want[k][j],
            #[trigger] got[k][j],
        )
}

/// Each row of `rows`, with every item replaced by its image under `f`.
pub open spec fn map_rows<A, B>(rows: Seq<Seq<A>>, f: spec_fn(A) -> B) -> Seq<Seq<B>> {
    Seq::new(rows.len(), |i: int| rows[i].map_values(f))
}

/// What the references of each inner vector point at.
pub open spec fn ref_rows<T>(picks: Seq<Vec<&T>>) -> Seq<Seq<T>> {
    Seq::new(picks.len(), |k: int| Seq::new(picks[k].len() as nat, |j: int| *picks[k][j]))
}

/// The selections from the sources at `from` and after, as references into
/// `sources`.
pub fn selections_from<'s, T>(sources: &'s Vec<Vec<T>>, from: usize) -> (r: Vec<Vec<&'s T>>)
    requires
        from <= sources.len(),
    ensures
        ref_rows(r@) == selections_spec(rows(sources@).skip(from as int)),
    decreases sources.len() - from,
{
    let ghost all = rows(sources@);
    let mut ans: Vec<Vec<&'s T>> = Vec::new();
    if from == sources.len() {
        ans.push(Vec::new());
        assert(ref_rows(ans@) =~~= seq![Seq::<T>::empty()]);
        return ans;
    }
    let heads = &sources[from];
    let tails = selections_from(sources, from + 1);
    let ghost tails_spec = selections_spec(all.skip(from + 1));
    assert(all.skip(from as int).drop_first() =~= all.skip(from + 1));
    let mut i: usize = 0;
    while i < heads.len()
        invariant
            i <= heads.len(),
            ref_rows(tails@) == tails_spec,
            ref_rows(ans@) == cross(heads@.take(i as int), tails_spec),
        decreases heads.len() - i,
    {
        let ghost before = ref_rows(ans@);
        let ghost block = prepend_each(heads[i as int], tails_spec);
        let mut k: usize = 0;
        while k < tails.len()
            invariant
                i < heads.len(),
                k <= tails.len(),
                ref_rows(tails@) == tails_spec,
                block == prepend_each(heads[i as int], tails_spec),
                ref_rows(ans@) == before + block.take(k as int),
            decreases tails.len() - k,
        {
            let tail = &tails[k];
            let mut pick: Vec<&'s T> = Vec::new();
            pick.push(&heads[i]);
            let mut j: usize = 0;
            while j < tail.len()
                invariant
                    i < heads.len(),
                    j <= tail.len(),
                    pick.len() == j + 1,
                    *pick[0] == heads[i as int],
                    forall|m: int| 0 <= m < j ==> *pick[m + 1] == *tail[m],
                decreases tail.len() - j,
            {
                pick.push(tail[j]);
                j += 1;
            }
            let ghost old_ans = ans@;
            ans.push(pick);
            proof {
                let next = before + block.take(k + 1);
                assert(ref_rows(old_ans).len() == old_ans.len());
                assert forall|m: int| 0 <= m < next.len() implies ref_rows(ans@)[m] == next[m] by {
                    if m < old_ans.len() {
                        assert(ref_rows(old_ans)[m] == (before + block.take(k as int))[m]);
                    }
                }
            }
            k += 1;
        }
        proof {
            assert(heads@.take(i + 1).drop_last() =~= heads@.take(i as int));
        }
        i += 1;
    }
    assert(heads@.take(i as int) =~= heads@);
    ans
}

/// Every way to choose one item from each source: the selections of
/// `sources`, in order, each item cloned from the source it was chosen from.
pub fn selections<T: Clone>(sources: Vec<Vec<T>>) -> (r: Vec<Vec<T>>)
    ensures
        cloned_rows(selections_spec(rows(sources@)), rows(r@)),
{
    let picks = selections_from(&sources, 0);
    let ghost want = selections_spec(rows(sources@));
    assert(rows(sources@).skip(0) =~= rows(sources@));
    let mut ans: Vec<Vec<T>> = Vec::new();
    let mut k: usize = 0;
    while k < picks.len()
        invariant
            k <= picks.len(),
            ref_rows(picks@) == want,
            cloned_rows(want.take(k as int), rows(ans@)),
        decreases picks.len() - k,
    {
        let pick = &picks[k];
        let mut row: Vec<T> = Vec::new();
        let mut j: usize = 0;
        while j < pick.len()
            invariant
                j <= pick.len(),
                row.len() == j,
                forall|m: int| 0 <= m < j ==> cloned::<T>(*pick[m], #[trigger] row[m]),
            decreases pick.len() - j,
        {
            row.push(pick[j].clone());
            j += 1;
        }
        let ghost old_ans = ans@;
        ans.push(row);
        proof {
            let got = rows(ans@);
            let upto = want.take(k + 1);
            assert forall|a: int| 0 <= a < upto.len() implies (#[trigger] got[a]).len()
                == upto[a].len() by {
                if a < k {
                    assert(got[a] == rows(old_ans)[a]);
                }
            }
            assert forall|a: int, b: int|
                0 <= a < upto.len() && 0 <= b < upto[a].len() implies cloned::<T>(
                #[trigger] upto[a][b],
                #[trigger] got[a][b],
            ) by {
                if a < k {
                    assert(got[a] == rows(old_ans)[a]);
                }
            }
        }
        k += 1;
    }
    ans
}

/// How many selections there are: the product of the sources' lengths.
pub open spec fn selections_count<T>(sources: Seq<Seq<T>>) -> nat
    decreases sources.len(),
{
    if sources.len() == 0 {
        1
    } else {
        sources[0].len() * selections_count(sources.drop_first())
    }
}

/// `cross` has a row for each pair of a head and a tail: the pair of the
/// `h`-th head and the `t`-th tail stands at `h * tails.len() + t`.
pub proof fn lemma_cross_index<T>(heads: Seq<T>, tails: Seq<Seq<T>>, h: int, t: int)
    requires
        0 <= h < heads.len(),
        0 <= t < tails.len(),
    ensures
        cross(heads, tails).len() == heads.len() * tails.len(),
        0 <= h * tails.len() + t < cross(heads, tails).len(),
        cross(heads, tails)[h * tails.len() + t] == seq![heads[h]] + tails[t],
    decreases heads.len(),
{
    let n = tails.len() as int;
    let m = heads.len() as int;
    lemma_cross_len(heads, tails);
    lemma_cross_len(heads.drop_last(), tails);
    if h < m - 1 {
        lemma_cross_index(heads.drop_last(), tails, h, t);
    }
}

/// `cross` has as many rows as there are pairs of a head and a tail.
pub proof fn lemma_cross_len<T>(heads: Seq<T>, tails: Seq<Seq<T>>)
    ensures
        cross(heads, tails).len() == heads.len() * tails.len(),
    decreases heads.len(),
{
    let n = tails.len() as int;
    let m = heads.len() as int;
    if m > 0 {
        lemma_cross_len(heads.drop_last(), tails);
        assert((m - 1) * n + n == m * n) by (nonlinear_arith);
    }
}

/// Every row of `cross` is a head in front of a tail, and stands where that
/// pair belongs.
pub proof fn lemma_cross_rows<T>(heads: Seq<T>, tails: Seq<Seq<T>>, k: int)
    requires
        0 <= k < cross(heads, tails).len(),
    ensures
        exists|h: int, t: int|
            0 <= h < heads.len() && 0 <= t < tails.len() && k == h * tails.len() + t && cross(
                heads,
                tails,
            )[k] == seq![heads[h]] + tails[t],
    decreases heads.len(),
{
    if heads.len() > 0 {
        let n = tails.len() as int;
        let m = heads.len() as int;
        let front = cross(heads.drop_last(), tails);
        lemma_cross_len(heads.drop_last(), tails);
        if k < front.len() {
            lemma_cross_rows(heads.drop_last(), tails, k);
            let (h, t) = choose|h: int, t: int|
                0 <= h < m - 1 && 0 <= t < n && k == h * n + t && front[k] == seq![
                    heads.drop_last()[h],
                ] + tails[t];
            assert(cross(heads, tails)[k] == seq![heads[h]] + tails[t]);
        } else {
            let t = k - front.len();
            assert(k == (m - 1) * n + t);
            assert(cross(heads, tails)[k] == seq![heads[m - 1]] + tails[t]);
        }
    }
}

/// Where no head and no tail occurs twice, no row of `cross` does.
pub proof fn lemma_cross_distinct<T>(heads: Seq<T>, tails: Seq<Seq<T>>)
    requires
        heads.no_duplicates(),
        tails.no_duplicates(),
    ensures
        cross(heads, tails).no_duplicates(),
{
    let all = cross(heads, tails);
    assert forall|a: int, b: int| 0 <= a < all.len() && 0 <= b < all.len() && a != b implies all[a]
        != all[b] by {
        lemma_cross_rows(heads, tails, a);
        lemma_cross_rows(heads, tails, b);
        let (h, t) = choose|h: int, t: int|
            0 <= h < heads.len() && 0 <= t < tails.len() && a == h * tails.len() + t && all[a]
                == seq![heads[h]] + tails[t];
        let (g, u) = choose|g: int, u: int|
            0 <= g < heads.len() && 0 <= u < tails.len() && b == g * tails.len() + u && all[b]
                == seq![heads[g]] + tails[u];
        if all[a] == all[b] {
            assert(all[a][0] == heads[h]);
            assert(all[b][0] == heads[g]);
            assert(all[a].drop_first() =~= tails[t]);
            assert(all[b].drop_first() =~= tails[u]);
            assert(h == g);
            assert(t == u);
        }
    }
}

/// Where no source holds an item twice, no selection occurs twice: every
/// way to choose appears exactly once.
pub proof fn lemma_selections_distinct<T>(sources: Seq<Seq<T>>)
    requires
        forall|j: int| 0 <= j < sources.len() ==> (#[trigger] sources[j]).no_duplicates(),
    ensures
        selections_spec(sources).no_duplicates(),
    decreases sources.len(),
{
    if sources.len() > 0 {
        let rest = sources.drop_first();
        assert forall|j: int| 0 <= j < rest.len() implies (#[trigger] rest[j]).no_duplicates() by {
            assert(sources[j + 1].no_duplicates());
        }
        lemma_selections_distinct(rest);
        lemma_cross_distinct(sources[0], selections_spec(rest));
    }
}

/// There is a selection for every way to choose, no more: as many as the
/// product of the sources' lengths.
pub proof fn lemma_selections_len<T>(sources: Seq<Seq<T>>)
    ensures
        selections_spec(sources).len() == selections_count(sources),
    decreases sources.len(),
{
    if sources.len() > 0 {
        lemma_selections_len(sources.drop_first());
        lemma_cross_len(sources[0], selections_spec(sources.drop_first()));
    }
}

/// Every selection takes one item from each source, in the order of the
/// sources.
pub proof fn lemma_selections_rows<T>(sources: Seq<Seq<T>>, k: int)
    requires
        0 <= k < selections_spec(sources).len(),
    ensures
        selections_spec(sources)[k].len() == sources.len(),
        forall|j: int|
            0 <= j < sources.len() ==> (#[trigger] sources[j]).contains(
                selections_spec(sources)[k][j],
            ),
    decreases sources.len(),
{
    if sources.len() > 0 {
        let rest = sources.drop_first();
        let tails = selections_spec(rest);
        lemma_cross_rows(sources[0], tails, k);
        let (h, t) = choose|h: int, t: int|
            0 <= h < sources[0].len() && 0 <= t < tails.len() && k == h * tails.len() + t
                && cross(sources[0], tails)[k] == seq![sources[0][h]] + tails[t];
        lemma_selections_rows(rest, t);
        let row = selections_spec(sources)[k];
        assert forall|j: int| 0 <= j < sources.len() implies (#[trigger] sources[j]).contains(
            row[j],
        ) by {
            if j > 0 {
                assert(rest[j - 1] == sources[j]);
            }
        }
    }
}

/// Every way to take one item from each source is a selection.
pub proof fn lemma_selections_complete<T>(sources: Seq<Seq<T>>, choice: Seq<T>)
    requires
        choice.len() == sources.len(),
        forall|j: int| 0 <= j < sources.len() ==> (#[trigger] sources[j]).contains(choice[j]),
    ensures
        selections_spec(sources).contains(choice),
    decreases sources.len(),
{
    if sources.len() == 0 {
        assert(selections_spec(sources)[0] == choice);
    } else {
        let rest = sources.drop_first();
        let tails = selections_spec(rest);
        lemma_selections_complete(rest, choice.drop_first());
        let t = choose|t: int| 0 <= t < tails.len() && tails[t] == choice.drop_first();
        let h = choose|h: int| 0 <= h < sources[0].len() && sources[0][h] == choice[0];
        lemma_cross_index(sources[0], tails, h, t);
        assert(seq![sources[0][h]] + tails[t] =~= choice);
    }
}

/// Selecting commutes with mapping: the selections of the mapped sources are
/// the mapped selections of the sources.
pub proof fn lemma_selections_map<A, B>(sources: Seq<Seq<A>>, f: spec_fn(A) -> B)
    ensures
        selections_spec(map_rows(sources, f)) == map_rows(selections_spec(sources), f),
    decreases sources.len(),
{
    let mapped = map_rows(sources, f);
    if sources.len() == 0 {
        assert(selections_spec(mapped) =~~= map_rows(selections_spec(sources), f));
    } else {
        lemma_selections_map(sources.drop_first(), f);
        assert(mapped.drop_first() =~= map_rows(sources.drop_first(), f));
        lemma_cross_map(sources[0], selections_spec(sources.drop_first()), f);
    }
}

/// `cross` commutes with mapping.
pub proof fn lemma_cross_map<A, B>(heads: Seq<A>, tails: Seq<Seq<A>>, f: spec_fn(A) -> B)
    ensures
        cross(heads.map_values(f), map_rows(tails, f)) == map_rows(cross(heads, tails), f),
    decreases heads.len(),
{
    if heads.len() > 0 {
        lemma_cross_map(heads.drop_last(), tails, f);
        assert(heads.map_values(f).drop_last() =~= heads.drop_last().map_values(f));
        let block = prepend_each(heads.last(), tails);
        let mapped_block = prepend_each(f(heads.last()), map_rows(tails, f));
        assert(mapped_block =~~= map_rows(block, f));
    }
}

} // verus!
