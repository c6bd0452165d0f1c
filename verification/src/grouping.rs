//! Sorting pools by protocol.
use crate::amm::{amm_views, AmmView, Variant, AMM};
use crate::factory::{Factory, FactoryView};
use crate::sync::factory_views;
use vstd::prelude::*;
use vstd::seq_lib::lemma_multiset_commutative;

verus! {

/// The pools of one protocol, in order.
pub open spec fn of_variant(amms: Seq<AmmView>, variant: Variant) -> Seq<AmmView> {
    amms.filter(|amm: AmmView| amm.variant() == variant)
}

/// The pools of every other protocol, in order.
pub open spec fn of_others(amms: Seq<AmmView>, variant: Variant) -> Seq<AmmView> {
    amms.filter(|amm: AmmView| amm.variant() != variant)
}

/// One of the first `count` factories makes pools of this protocol.
pub open spec fn is_served(factories: Seq<FactoryView>, count: int, variant: Variant) -> bool {
    exists|i: int| 0 <= i < count && #[trigger] factories[i].variant == variant
}

/// The pools that none of the first `count` factories makes, in order.
pub open spec fn unserved(
    amms: Seq<AmmView>,
    factories: Seq<FactoryView>,
    count: int,
) -> Seq<AmmView> {
    amms.filter(|amm: AmmView| !is_served(factories, count, amm.variant()))
}

/// The pools that the factory at `at` takes over: all of its protocol, unless an earlier factory
/// of that protocol has them.
pub open spec fn extension(
    amms: Seq<AmmView>,
    factories: Seq<FactoryView>,
    at: int,
) -> Seq<AmmView> {
    if is_served(factories, at, factories[at].variant) {
        Seq::empty()
    } else {
        of_variant(amms, factories[at].variant)
    }
}

/// The pools sorted by protocol; within a protocol they keep their order.
pub open spec fn grouped(amms: Seq<AmmView>) -> Seq<AmmView> {
    of_variant(amms, Variant::UniswapV2) + of_variant(amms, Variant::UniswapV2Variant) + of_variant(
        amms,
        Variant::UniswapV3,
    ) + of_variant(amms, Variant::UniswapV3Variant) + of_variant(amms, Variant::ERC4626)
        + of_variant(amms, Variant::Balancer)
}

proof fn lemma_filter_push(
    amms: Seq<AmmView>,
    last: AmmView,
    pred: spec_fn(AmmView) -> bool,
)
    ensures
        amms.push(last).filter(pred) == (if pred(last) {
            amms.filter(pred).push(last)
        } else {
            amms.filter(pred)
        }),
{
    reveal(Seq::filter);
    assert(amms.push(last).drop_last() =~= amms);
}

/// Filtering twice is filtering by both conditions.
proof fn lemma_filter_filter(
    amms: Seq<AmmView>,
    first: spec_fn(AmmView) -> bool,
    second: spec_fn(AmmView) -> bool,
    both: spec_fn(AmmView) -> bool,
)
    requires
        forall|amm: AmmView| #[trigger] both(amm) == (first(amm) && second(amm)),
    ensures
        amms.filter(first).filter(second) == amms.filter(both),
    decreases amms.len(),
{
    reveal(Seq::filter);
    if amms.len() > 0 {
        let init = amms.drop_last();
        lemma_filter_filter(init, first, second, both);
        lemma_filter_push(init.filter(first), amms.last(), second);
        assert(both(amms.last()) == (first(amms.last()) && second(amms.last())));
    }
}

/// Filtering by a condition that no element meets.
proof fn lemma_filter_none(amms: Seq<AmmView>, pred: spec_fn(AmmView) -> bool)
    requires
        forall|amm: AmmView| !(#[trigger] pred(amm)),
    ensures
        amms.filter(pred) == Seq::<AmmView>::empty(),
    decreases amms.len(),
{
    reveal(Seq::filter);
    if amms.len() > 0 {
        lemma_filter_none(amms.drop_last(), pred);
    } else {
        assert(amms.filter(pred) =~= Seq::empty());
    }
}

/// What another factory takes over, and what it leaves.
proof fn lemma_next_factory(amms: Seq<AmmView>, factories: Seq<FactoryView>, at: int)
    requires
        0 <= at < factories.len(),
    ensures
        of_variant(unserved(amms, factories, at), factories[at].variant) == extension(
            amms,
            factories,
            at,
        ),
        of_others(unserved(amms, factories, at), factories[at].variant) == unserved(
            amms,
            factories,
            at + 1,
        ),
{
    let variant = factories[at].variant;
    let free = |amm: AmmView| !is_served(factories, at, amm.variant());
    let same = |amm: AmmView| amm.variant() == variant;
    let other = |amm: AmmView| amm.variant() != variant;
    if is_served(factories, at, variant) {
        let both = |amm: AmmView| false;
        assert forall|amm: AmmView| #[trigger] both(amm) == (free(amm) && same(amm)) by {}
        lemma_filter_filter(amms, free, same, both);
        lemma_filter_none(amms, both);
    } else {
        lemma_filter_filter(amms, free, same, same);
    }
    let next = |amm: AmmView| !is_served(factories, at + 1, amm.variant());
    assert forall|amm: AmmView| #[trigger] next(amm) == (free(amm) && other(amm)) by {
        if is_served(factories, at, amm.variant()) {
            let i = choose|i: int| 0 <= i < at && #[trigger] factories[i].variant == amm.variant();
            assert(0 <= i < at + 1 && factories[i].variant == amm.variant());
        }
        if amm.variant() == variant {
            assert(factories[at].variant == amm.variant());
        }
    }
    lemma_filter_filter(amms, free, other, next);
}

/// Taking one protocol away leaves the others as they are.
proof fn lemma_others_keep(amms: Seq<AmmView>, gone: Variant, variant: Variant)
    requires
        gone != variant,
    ensures
        of_variant(of_others(amms, gone), variant) == of_variant(amms, variant),
{
    lemma_filter_filter(
        amms,
        |amm: AmmView| amm.variant() != gone,
        |amm: AmmView| amm.variant() == variant,
        |amm: AmmView| amm.variant() == variant,
    );
}

/// Parts the pools of one protocol from the others.
pub(crate) fn part_variant(amms: Vec<AMM>, variant: Variant) -> (parts: (Vec<AMM>, Vec<AMM>))
    ensures
        amm_views(parts.0@) == of_variant(amm_views(amms@), variant),
        amm_views(parts.1@) == of_others(amm_views(amms@), variant),
{
    let ghost all = amms@;
    let ghost same = |amm: AmmView| amm.variant() == variant;
    let ghost other = |amm: AmmView| amm.variant() != variant;
    let mut matching: Vec<AMM> = Vec::new();
    let mut others: Vec<AMM> = Vec::new();
    proof {
        reveal(Seq::filter);
        assert(amm_views(all.take(0)) =~= Seq::empty());
        assert(amm_views(matching@) =~= Seq::empty());
        assert(amm_views(others@) =~= Seq::empty());
    }
    for amm in iter: amms
        invariant
            iter.seq() == all,
            same == (|amm: AmmView| amm.variant() == variant),
            other == (|amm: AmmView| amm.variant() != variant),
            amm_views(matching@) == amm_views(all.take(iter.index())).filter(same),
            amm_views(others@) == amm_views(all.take(iter.index())).filter(other),
    {
        let ghost i = iter.index();
        let ghost before = amm_views(all.take(i));
        let ghost had = (matching@, others@);
        proof {
            lemma_filter_push(before, amm@, same);
            lemma_filter_push(before, amm@, other);
            assert(amm_views(all.take(i + 1)) =~= before.push(amm@));
        }
        if amm.variant() == variant {
            matching.push(amm);
            assert(amm_views(matching@) =~= amm_views(had.0).push(amm@));
        } else {
            others.push(amm);
            assert(amm_views(others@) =~= amm_views(had.1).push(amm@));
        }
    }
    assert(all.take(all.len() as int) =~= all);
    (matching, others)
}

/// Moves the pools of one protocol from `amms` to the end of `sorted`.
fn move_variant(amms: Vec<AMM>, variant: Variant, sorted: &mut Vec<AMM>) -> (others: Vec<AMM>)
    ensures
        amm_views(final(sorted)@) == amm_views(old(sorted)@) + of_variant(
            amm_views(amms@),
            variant,
        ),
        amm_views(others@) == of_others(amm_views(amms@), variant),
{
    let (mut matching, others) = part_variant(amms, variant);
    let ghost these = matching@;
    sorted.append(&mut matching);
    assert(amm_views(sorted@) =~= amm_views(old(sorted)@) + amm_views(these));
    others
}

/// Sorts pools by protocol.
pub(crate) fn group(amms: Vec<AMM>) -> (sorted: Vec<AMM>)
    ensures
        amm_views(sorted@) == grouped(amm_views(amms@)),
{
    let ghost all = amm_views(amms@);
    let mut sorted: Vec<AMM> = Vec::new();
    assert(amm_views(sorted@) =~= Seq::empty());
    let rest = move_variant(amms, Variant::UniswapV2, &mut sorted);
    let ghost rest1 = amm_views(rest@);
    let rest = move_variant(rest, Variant::UniswapV2Variant, &mut sorted);
    let ghost rest2 = amm_views(rest@);
    let rest = move_variant(rest, Variant::UniswapV3, &mut sorted);
    let ghost rest3 = amm_views(rest@);
    let rest = move_variant(rest, Variant::UniswapV3Variant, &mut sorted);
    let ghost rest4 = amm_views(rest@);
    let rest = move_variant(rest, Variant::ERC4626, &mut sorted);
    let ghost rest5 = amm_views(rest@);
    let _ = move_variant(rest, Variant::Balancer, &mut sorted);
    proof {
        lemma_others_keep(all, Variant::UniswapV2, Variant::UniswapV2Variant);
        lemma_others_keep(all, Variant::UniswapV2, Variant::UniswapV3);
        lemma_others_keep(all, Variant::UniswapV2, Variant::UniswapV3Variant);
        lemma_others_keep(all, Variant::UniswapV2, Variant::ERC4626);
        lemma_others_keep(all, Variant::UniswapV2, Variant::Balancer);
        lemma_others_keep(rest1, Variant::UniswapV2Variant, Variant::UniswapV3);
        lemma_others_keep(rest1, Variant::UniswapV2Variant, Variant::UniswapV3Variant);
        lemma_others_keep(rest1, Variant::UniswapV2Variant, Variant::ERC4626);
        lemma_others_keep(rest1, Variant::UniswapV2Variant, Variant::Balancer);
        lemma_others_keep(rest2, Variant::UniswapV3, Variant::UniswapV3Variant);
        lemma_others_keep(rest2, Variant::UniswapV3, Variant::ERC4626);
        lemma_others_keep(rest2, Variant::UniswapV3, Variant::Balancer);
        lemma_others_keep(rest3, Variant::UniswapV3Variant, Variant::ERC4626);
        lemma_others_keep(rest3, Variant::UniswapV3Variant, Variant::Balancer);
        lemma_others_keep(rest4, Variant::ERC4626, Variant::Balancer);
        assert(amm_views(sorted@) =~= grouped(all));
    }
    sorted
}

/// The views of several lists of pools.
pub open spec fn list_views(lists: Seq<Vec<AMM>>) -> Seq<Seq<AmmView>> {
    lists.map_values(|list: Vec<AMM>| amm_views(list@))
}

/// Hands each pool to the first factory of its protocol. Also gives the pools without a factory.
pub(crate) fn assign(amms: Vec<AMM>, factories: &Vec<Factory>) -> (assigned: (
    Vec<Vec<AMM>>,
    Vec<AMM>,
))
    ensures
        list_views(assigned.0@) == Seq::new(
            factories@.len(),
            |i: int| extension(amm_views(amms@), factory_views(factories@), i),
        ),
        amm_views(assigned.1@) == unserved(
            amm_views(amms@),
            factory_views(factories@),
            factories@.len() as int,
        ),
{
    let ghost all = amm_views(amms@);
    let ghost views = factory_views(factories@);
    let ghost expected = Seq::new(factories@.len(), |i: int| extension(all, views, i));
    let mut extensions: Vec<Vec<AMM>> = Vec::new();
    let mut rest = amms;
    proof {
        lemma_all_unserved(all, views);
        assert(list_views(extensions@) =~= expected.take(0));
    }
    let mut i: usize = 0;
    while i < factories.len()
        invariant
            i <= factories@.len(),
            views == factory_views(factories@),
            expected == Seq::new(factories@.len(), |i: int| extension(all, views, i)),
            amm_views(rest@) == unserved(all, views, i as int),
            list_views(extensions@) == expected.take(i as int),
        decreases factories@.len() - i,
    {
        proof {
            lemma_next_factory(all, views, i as int);
            assert(views[i as int] == factories@[i as int]@);
        }
        let ghost had = extensions@;
        let (matching, others) = part_variant(rest, factories[i].variant);
        extensions.push(matching);
        rest = others;
        proof {
            assert(list_views(extensions@) =~= list_views(had).push(amm_views(matching@)));
            assert(expected.take(i + 1) =~= expected.take(i as int).push(expected[i as int]));
        }
        i = i + 1;
    }
    assert(expected.take(i as int) =~= expected);
    (extensions, rest)
}

proof fn lemma_all_unserved(amms: Seq<AmmView>, factories: Seq<FactoryView>)
    ensures
        unserved(amms, factories, 0) == amms,
    decreases amms.len(),
{
    reveal(Seq::filter);
    if amms.len() > 0 {
        lemma_all_unserved(amms.drop_last(), factories);
        assert(!is_served(factories, 0, amms.last().variant()));
        assert(amms =~= amms.drop_last().push(amms.last()));
    } else {
        assert(unserved(amms, factories, 0) =~= amms);
    }
}

/// How often a pool occurs among those that meet a condition.
proof fn lemma_count_filtered(amms: Seq<AmmView>, pred: spec_fn(AmmView) -> bool, amm: AmmView)
    ensures
        amms.filter(pred).to_multiset().count(amm) == (if pred(amm) {
            amms.to_multiset().count(amm)
        } else {
            0
        }),
    decreases amms.len(),
{
    broadcast use vstd::seq_lib::group_to_multiset_ensures;

    reveal(Seq::filter);
    if amms.len() > 0 {
        let init = amms.drop_last();
        lemma_count_filtered(init, pred, amm);
        lemma_filter_push(init, amms.last(), pred);
        assert(amms =~= init.push(amms.last()));
    } else {
        assert(amms.filter(pred) =~= amms);
    }
}

/// Sorting pools by protocol neither loses a pool nor adds one.
pub proof fn law_grouping_keeps_every_pool(amms: Seq<AmmView>)
    ensures
        grouped(amms).to_multiset() == amms.to_multiset(),
{
    let v2 = of_variant(amms, Variant::UniswapV2);
    let v2_variant = of_variant(amms, Variant::UniswapV2Variant);
    let v3 = of_variant(amms, Variant::UniswapV3);
    let v3_variant = of_variant(amms, Variant::UniswapV3Variant);
    let vaults = of_variant(amms, Variant::ERC4626);
    let balancer = of_variant(amms, Variant::Balancer);
    lemma_multiset_commutative(v2, v2_variant);
    lemma_multiset_commutative(v2 + v2_variant, v3);
    lemma_multiset_commutative(v2 + v2_variant + v3, v3_variant);
    lemma_multiset_commutative(v2 + v2_variant + v3 + v3_variant, vaults);
    lemma_multiset_commutative(v2 + v2_variant + v3 + v3_variant + vaults, balancer);
    assert forall|amm: AmmView|
        grouped(amms).to_multiset().count(amm) == amms.to_multiset().count(amm) by {
        lemma_count_filtered(amms, |a: AmmView| a.variant() == Variant::UniswapV2, amm);
        lemma_count_filtered(amms, |a: AmmView| a.variant() == Variant::UniswapV2Variant, amm);
        lemma_count_filtered(amms, |a: AmmView| a.variant() == Variant::UniswapV3, amm);
        lemma_count_filtered(amms, |a: AmmView| a.variant() == Variant::UniswapV3Variant, amm);
        lemma_count_filtered(amms, |a: AmmView| a.variant() == Variant::ERC4626, amm);
        lemma_count_filtered(amms, |a: AmmView| a.variant() == Variant::Balancer, amm);
    }
    assert(grouped(amms).to_multiset() =~= amms.to_multiset());
}

/// The pools that the first `count` factories take over.
pub open spec fn taken_over(
    amms: Seq<AmmView>,
    factories: Seq<FactoryView>,
    count: int,
) -> Seq<AmmView>
    decreases count,
{
    if count <= 0 {
        Seq::empty()
    } else {
        taken_over(amms, factories, count - 1) + extension(amms, factories, count - 1)
    }
}

/// Every listed pool is taken over by one factory or is left without a factory, and never both
/// nor twice.
pub proof fn law_each_pool_goes_to_one_place(
    amms: Seq<AmmView>,
    factories: Seq<FactoryView>,
    count: int,
)
    requires
        0 <= count <= factories.len(),
    ensures
        taken_over(amms, factories, count).to_multiset().add(
            unserved(amms, factories, count).to_multiset(),
        ) == amms.to_multiset(),
    decreases count,
{
    broadcast use vstd::seq_lib::group_to_multiset_ensures;

    if count == 0 {
        lemma_all_unserved(amms, factories);
        assert(taken_over(amms, factories, 0).to_multiset().add(amms.to_multiset())
            =~= amms.to_multiset());
    } else {
        let at = count - 1;
        law_each_pool_goes_to_one_place(amms, factories, at);
        lemma_next_factory(amms, factories, at);
        let free = unserved(amms, factories, at);
        let variant = factories[at].variant;
        let before = taken_over(amms, factories, at);
        let these = extension(amms, factories, at);
        lemma_multiset_commutative(before, these);
        assert forall|amm: AmmView|
            these.to_multiset().count(amm) + unserved(amms, factories, count).to_multiset().count(
                amm,
            ) == free.to_multiset().count(amm) by {
            lemma_count_filtered(free, |a: AmmView| a.variant() == variant, amm);
            lemma_count_filtered(free, |a: AmmView| a.variant() != variant, amm);
        }
        assert(taken_over(amms, factories, count).to_multiset().add(
            unserved(amms, factories, count).to_multiset(),
        ) =~= amms.to_multiset());
    }
}

} // verus!
