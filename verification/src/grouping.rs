use vstd::prelude::*;

verus! {

/// The test for a position: whether its row has the key `key`.
pub open spec fn has_key(keys: Seq<i32>, key: i32) -> spec_fn(usize) -> bool {
    |p: usize| keys[p as int] == key
}

/// The positions of `among` whose rows have the key `key`, in the order of `among`.
pub open spec fn positions_with(keys: Seq<i32>, among: Seq<usize>, key: i32) -> Seq<usize> {
    among.filter(has_key(keys, key))
}

/// Whether a row at one of the positions `among` has the key `key`.
pub open spec fn occurs(keys: Seq<i32>, among: Seq<usize>, key: i32) -> bool {
    exists|j: int| 0 <= j < among.len() && keys[(#[trigger] among[j]) as int] == key
}

/// The positions of `among` that bring a key for the first time, in the order of `among`.
pub open spec fn first_seen(keys: Seq<i32>, among: Seq<usize>) -> Seq<usize>
    decreases among.len(),
{
    if among.len() == 0 {
        Seq::empty()
    } else {
        let before = among.drop_last();
        if occurs(keys, before, keys[among.last() as int]) {
            first_seen(keys, before)
        } else {
            first_seen(keys, before).push(among.last())
        }
    }
}

/// The positions `among` in groups of equal key: one group for every key, the groups in the
/// order in which their keys first occur, and in each group the positions in the order of
/// `among`.
pub open spec fn grouped(keys: Seq<i32>, among: Seq<usize>) -> Seq<Seq<usize>> {
    first_seen(keys, among).map_values(|p: usize| positions_with(keys, among, keys[p as int]))
}

/// Whether every position of `among` is the position of a row.
pub open spec fn in_range(keys: Seq<i32>, among: Seq<usize>) -> bool {
    forall|j: int| 0 <= j < among.len() ==> (#[trigger] among[j]) < keys.len()
}

/// What one more position does to the groups: it joins the group of its key, or opens a group
/// behind the others where its key is new.
proof fn lemma_one_more_position(keys: Seq<i32>, before: Seq<usize>, p: usize)
    ensures
        occurs(keys, before, keys[p as int]) ==> first_seen(keys, before.push(p)) == first_seen(
            keys,
            before,
        ),
        !occurs(keys, before, keys[p as int]) ==> first_seen(keys, before.push(p)) == first_seen(
            keys,
            before,
        ).push(p),
        forall|key: i32|
            #[trigger] positions_with(keys, before.push(p), key) == if keys[p as int] == key {
                positions_with(keys, before, key).push(p)
            } else {
                positions_with(keys, before, key)
            },
{
    assert(before.push(p).drop_last() =~= before);
    assert(before.push(p).last() == p);
    reveal(Seq::filter);
}

/// The positions that bring a key for the first time are positions of `among`, they bring
/// every key that occurs, and no two of them bring the same.
proof fn lemma_first_seen(keys: Seq<i32>, among: Seq<usize>)
    ensures
        forall|g: int|
            0 <= g < first_seen(keys, among).len() ==> among.contains(
                #[trigger] first_seen(keys, among)[g],
            ),
        forall|j: int|
            0 <= j < among.len() ==> occurs(
                keys,
                first_seen(keys, among),
                keys[(#[trigger] among[j]) as int],
            ),
        forall|g: int, h: int|
            0 <= g < h < first_seen(keys, among).len() ==> keys[(#[trigger] first_seen(
                keys,
                among,
            )[g]) as int] != keys[(#[trigger] first_seen(keys, among)[h]) as int],
    decreases among.len(),
{
    if among.len() > 0 {
        let before = among.drop_last();
        let p = among.last();
        let leaders = first_seen(keys, before);
        let now = first_seen(keys, among);
        lemma_first_seen(keys, before);
        assert forall|g: int| 0 <= g < now.len() implies among.contains(#[trigger] now[g]) by {
            if g < leaders.len() {
                assert(before.contains(leaders[g]));
                let j = choose|j: int| 0 <= j < before.len() && before[j] == leaders[g];
                assert(among[j] == leaders[g]);
            } else {
                assert(among[among.len() - 1] == p);
            }
        }
        assert forall|j: int| 0 <= j < among.len() implies occurs(
            keys,
            now,
            keys[(#[trigger] among[j]) as int],
        ) by {
            let key = keys[among[j] as int];
            if j < before.len() {
                assert(before[j] == among[j]);
                assert(occurs(keys, leaders, key));
                let g = choose|g: int| 0 <= g < leaders.len() && keys[leaders[g] as int] == key;
                assert(keys[now[g] as int] == key);
            } else if occurs(keys, before, key) {
                let i = choose|i: int| 0 <= i < before.len() && keys[before[i] as int] == key;
                assert(occurs(keys, leaders, keys[before[i] as int]));
                let g = choose|g: int| 0 <= g < leaders.len() && keys[leaders[g] as int] == key;
                assert(keys[now[g] as int] == key);
            } else {
                assert(keys[now[now.len() - 1] as int] == key);
            }
        }
        assert forall|g: int, h: int| 0 <= g < h < now.len() implies keys[(#[trigger] now[g]) as int]
            != keys[(#[trigger] now[h]) as int] by {
            if h == leaders.len() {
                assert(before.contains(leaders[g]));
                let j = choose|j: int| 0 <= j < before.len() && before[j] == leaders[g];
                assert(keys[before[j] as int] == keys[leaders[g] as int]);
            }
        }
    }
}

/// Groups the positions `among` by the key of their rows. The groups come in the order in
/// which their keys first occur, and each holds its positions in the order of `among`.
pub fn group_positions(keys: &Vec<i32>, among: &Vec<usize>) -> (groups: Vec<Vec<usize>>)
    requires
        in_range(keys@, among@),
    ensures
        groups.deep_view() == grouped(keys@, among@),
{
    let mut groups: Vec<Vec<usize>> = Vec::new();
    let mut i: usize = 0;
    assert(among@.take(0) =~= Seq::<usize>::empty());
    assert(groups.deep_view() =~~= grouped(keys@, among@.take(0)));
    while i < among.len()
        invariant
            i <= among@.len(),
            in_range(keys@, among@),
            groups.deep_view() == grouped(keys@, among@.take(i as int)),
        decreases among@.len() - i,
    {
        let p: usize = among[i];
        let key: i32 = keys[p];
        let ghost before = among@.take(i as int);
        let ghost leaders = first_seen(keys@, before);
        proof {
            lemma_first_seen(keys@, before);
            lemma_one_more_position(keys@, before, p);
            assert(among@.take(i + 1) =~= before.push(p));
            assert(groups.deep_view().len() == leaders.len());
            assert forall|g: int| 0 <= g < groups@.len() implies groups@[g]@ == positions_with(
                keys@,
                before,
                keys@[leaders[g] as int],
            ) by {
                assert(groups.deep_view()[g] == groups@[g].deep_view());
                assert(groups@[g].deep_view() =~= groups@[g]@);
            }
        }
        let mut g: usize = 0;
        let mut found: bool = false;
        while g < groups.len() && !found
            invariant
                g <= groups@.len(),
                groups@.len() == leaders.len(),
                leaders == first_seen(keys@, before),
                before == among@.take(i as int),
                i < among@.len(),
                in_range(keys@, among@),
                forall|h: int|
                    0 <= h < groups@.len() ==> (#[trigger] groups@[h])@ == positions_with(
                        keys@,
                        before,
                        keys@[leaders[h] as int],
                    ),
                forall|h: int|
                    0 <= h < leaders.len() ==> before.contains(#[trigger] leaders[h]),
                found ==> g < groups@.len() && keys@[leaders[g as int] as int] == key,
                forall|h: int| 0 <= h < g ==> keys@[(#[trigger] leaders[h]) as int] != key,
            decreases groups@.len() - g + if found { 0int } else { 1int },
        {
            proof {
                let leader = leaders[g as int];
                let same = has_key(keys@, keys@[leader as int]);
                let j = choose|j: int| 0 <= j < before.len() && before[j] == leader;
                before.lemma_filter_contains(same, j);
                let first = before.filter(same)[0];
                before.lemma_filter_pred(same, 0);
                assert(before.filter(same).contains(first));
                before.lemma_filter_contains_rev(same, first);
                let k = choose|k: int| 0 <= k < before.len() && before[k] == first;
                assert(among@[k] == first);
            }
            let first: usize = groups[g][0];
            if keys[first] == key {
                found = true;
            } else {
                g += 1;
            }
        }
        if found {
            groups[g].push(p);
            proof {
                assert(occurs(keys@, before, key)) by {
                    let leader = leaders[g as int];
                    let j = choose|j: int| 0 <= j < before.len() && before[j] == leader;
                    assert(keys@[before[j] as int] == key);
                }
            }
        } else {
            let mut group: Vec<usize> = Vec::new();
            group.push(p);
            groups.push(group);
            proof {
                assert(!occurs(keys@, before, key)) by {
                    if occurs(keys@, before, key) {
                        let j = choose|j: int| 0 <= j < before.len() && keys@[before[j] as int] == key;
                        assert(occurs(keys@, leaders, keys@[before[j] as int]));
                        let h = choose|h: int| 0 <= h < leaders.len() && keys@[leaders[h] as int] == key;
                        assert(keys@[leaders[h] as int] != key);
                    }
                }
                assert(positions_with(keys@, before, key).len() == 0) by {
                    if positions_with(keys@, before, key).len() > 0 {
                        let e = positions_with(keys@, before, key)[0];
                        before.lemma_filter_pred(has_key(keys@, key), 0);
                        assert(before.filter(has_key(keys@, key)).contains(e));
                        before.lemma_filter_contains_rev(has_key(keys@, key), e);
                        let j = choose|j: int| 0 <= j < before.len() && before[j] == e;
                        assert(keys@[before[j] as int] == key);
                    }
                }
            }
        }
        proof {
            assert(groups.deep_view() =~~= grouped(keys@, before.push(p)));
        }
        i += 1;
    }
    assert(among@.take(among@.len() as int) =~= among@);
    groups
}

/// The positions of `n` rows, in order.
pub open spec fn all_positions(n: nat) -> Seq<usize> {
    Seq::new(n, |i: int| i as usize)
}

/// The address ids of joined rows.
pub open spec fn address_ids(rows: Seq<(i32, i32)>) -> Seq<i32> {
    rows.map_values(|row: (i32, i32)| row.0)
}

/// The author ids of joined rows.
pub open spec fn author_ids(rows: Seq<(i32, i32)>) -> Seq<i32> {
    rows.map_values(|row: (i32, i32)| row.1)
}

/// Joined rows, each an address id beside an author id, folded into their nesting: the
/// positions of the rows grouped by address, and within each address by author.
pub open spec fn nested(rows: Seq<(i32, i32)>) -> Seq<Seq<Seq<usize>>> {
    grouped(address_ids(rows), all_positions(rows.len())).map_values(
        |of_address: Seq<usize>| grouped(author_ids(rows), of_address),
    )
}

/// Every group holds positions, all of one key, and no two groups hold the same key.
pub proof fn lemma_groups_are_keyed(keys: Seq<i32>, among: Seq<usize>)
    ensures
        forall|g: int|
            0 <= g < grouped(keys, among).len() ==> (#[trigger] grouped(keys, among)[g]).len() > 0,
        forall|g: int, e: int|
            0 <= g < grouped(keys, among).len() && 0 <= e < grouped(keys, among)[g].len()
                ==> among.contains(#[trigger] grouped(keys, among)[g][e]) && keys[grouped(
                keys,
                among,
            )[g][e] as int] == keys[grouped(keys, among)[g][0] as int],
        forall|g: int, h: int|
            0 <= g < h < grouped(keys, among).len() ==> keys[(#[trigger] grouped(
                keys,
                among,
            )[g])[0] as int] != keys[(#[trigger] grouped(keys, among)[h])[0] as int],
{
    let leaders = first_seen(keys, among);
    let groups = grouped(keys, among);
    lemma_first_seen(keys, among);
    assert forall|g: int| 0 <= g < groups.len() implies (#[trigger] groups[g]).len() > 0 && keys[groups[g][0] as int]
        == keys[leaders[g] as int] by {
        let same = has_key(keys, keys[leaders[g] as int]);
        let j = choose|j: int| 0 <= j < among.len() && among[j] == leaders[g];
        among.lemma_filter_contains(same, j);
        among.lemma_filter_pred(same, 0);
    }
    assert forall|g: int, e: int|
        0 <= g < groups.len() && 0 <= e < groups[g].len() implies among.contains(
        #[trigger] groups[g][e],
    ) && keys[groups[g][e] as int] == keys[groups[g][0] as int] by {
        let same = has_key(keys, keys[leaders[g] as int]);
        among.lemma_filter_pred(same, e);
        assert(among.filter(same).contains(groups[g][e]));
        among.lemma_filter_contains_rev(same, groups[g][e]);
    }
}

/// Every position is held by a group.
pub proof fn lemma_groups_cover(keys: Seq<i32>, among: Seq<usize>, j: int)
    requires
        0 <= j < among.len(),
    ensures
        exists|g: int|
            0 <= g < grouped(keys, among).len() && (#[trigger] grouped(keys, among)[g]).contains(
                among[j],
            ),
{
    let leaders = first_seen(keys, among);
    lemma_first_seen(keys, among);
    assert(occurs(keys, leaders, keys[among[j] as int]));
    let g = choose|g: int| 0 <= g < leaders.len() && keys[leaders[g] as int] == keys[among[j] as int];
    among.lemma_filter_contains(has_key(keys, keys[leaders[g] as int]), j);
    assert(grouped(keys, among)[g].contains(among[j]));
}

/// Folds joined rows, each an address id beside an author id, into their nesting: the
/// positions of the rows by address, and within each address by author. Addresses and authors
/// come in the order in which the rows first bring them, and the rows of an author in their own
/// order.
pub fn nested_join(rows: &Vec<(i32, i32)>) -> (groups: Vec<Vec<Vec<usize>>>)
    ensures
        groups.deep_view() == nested(rows@),
{
    let mut addresses: Vec<i32> = Vec::new();
    let mut authors: Vec<i32> = Vec::new();
    let mut all: Vec<usize> = Vec::new();
    let mut i: usize = 0;
    while i < rows.len()
        invariant
            i <= rows@.len(),
            addresses@ == address_ids(rows@).take(i as int),
            authors@ == author_ids(rows@).take(i as int),
            all@ == all_positions(rows@.len()).take(i as int),
        decreases rows@.len() - i,
    {
        addresses.push(rows[i].0);
        authors.push(rows[i].1);
        all.push(i);
        i += 1;
        assert(addresses@ =~= address_ids(rows@).take(i as int));
        assert(authors@ =~= author_ids(rows@).take(i as int));
        assert(all@ =~= all_positions(rows@.len()).take(i as int));
    }
    assert(addresses@ =~= address_ids(rows@));
    assert(authors@ =~= author_ids(rows@));
    assert(all@ =~= all_positions(rows@.len()));
    let by_address = group_positions(&addresses, &all);
    proof {
        lemma_groups_are_keyed(addresses@, all@);
    }
    let mut groups: Vec<Vec<Vec<usize>>> = Vec::new();
    let mut g: usize = 0;
    while g < by_address.len()
        invariant
            g <= by_address@.len(),
            authors@ == author_ids(rows@),
            authors@.len() == rows@.len(),
            all@ == all_positions(rows@.len()),
            by_address.deep_view() == grouped(address_ids(rows@), all@),
            forall|h: int, e: int|
                0 <= h < grouped(address_ids(rows@), all@).len() && 0 <= e < grouped(
                    address_ids(rows@),
                    all@,
                )[h].len() ==> all@.contains(
                    #[trigger] grouped(address_ids(rows@), all@)[h][e],
                ),
            groups@.len() == g,
            forall|h: int|
                0 <= h < g ==> (#[trigger] groups@[h]).deep_view() == grouped(
                    authors@,
                    by_address@[h]@,
                ),
        decreases by_address@.len() - g,
    {
        let of_address = &by_address[g];
        proof {
            assert(by_address.deep_view()[g as int] == by_address@[g as int].deep_view());
            assert(by_address@[g as int].deep_view() =~= of_address@);
            assert forall|e: int| 0 <= e < of_address@.len() implies (#[trigger] of_address@[e])
                < authors@.len() by {
                assert(all@.contains(grouped(address_ids(rows@), all@)[g as int][e]));
            }
        }
        let by_author = group_positions(&authors, of_address);
        groups.push(by_author);
        g += 1;
    }
    proof {
        assert(by_address.deep_view().len() == by_address@.len());
        assert forall|h: int| 0 <= h < groups@.len() implies groups.deep_view()[h] == nested(
            rows@,
        )[h] by {
            assert(groups.deep_view()[h] == groups@[h].deep_view());
            assert(by_address.deep_view()[h] == by_address@[h].deep_view());
            assert(by_address@[h].deep_view() =~= by_address@[h]@);
        }
        assert(groups.deep_view() =~= nested(rows@));
    }
    groups
}

} // verus!
