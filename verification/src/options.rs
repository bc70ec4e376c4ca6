//! The order in which options are sent: by number, and those with the same
//! number in the order in which they were given.

use vstd::prelude::*;

verus! {

/// An option: its number and its value.
pub type OptionView = (u16, Seq<u8>);

/// The view of one option.
pub open spec fn option_view(option: (u16, Vec<u8>)) -> OptionView {
    (option.0, option.1@)
}

/// The views of `options`.
pub open spec fn option_views(options: Seq<(u16, Vec<u8>)>) -> Seq<OptionView> {
    options.map_values(|option: (u16, Vec<u8>)| option_view(option))
}

/// The views of what `options` refer to.
pub open spec fn referred_views(options: Seq<&(u16, Vec<u8>)>) -> Seq<OptionView> {
    options.map_values(|option: &(u16, Vec<u8>)| option_view(*option))
}

/// No option stands before one with a smaller number.
pub open spec fn is_ordered(options: Seq<OptionView>) -> bool {
    forall|i: int, j: int|
        0 <= i <= j < options.len() ==> (#[trigger] options[i]).0 <= (#[trigger] options[j]).0
}

/// The options that have `number`, in the order in which they stand.
pub open spec fn numbered(options: Seq<OptionView>, number: u16) -> Seq<OptionView> {
    options.filter(|option: OptionView| option.0 == number)
}

/// `options` with `option` put behind the last that may stand before it.
pub open spec fn inserted(options: Seq<OptionView>, option: OptionView) -> Seq<OptionView>
    decreases options.len(),
{
    if options.len() == 0 || options.last().0 <= option.0 {
        options.push(option)
    } else {
        inserted(options.drop_last(), option).push(options.last())
    }
}

/// `options` in the order in which they are sent.
pub open spec fn in_order(options: Seq<OptionView>) -> Seq<OptionView>
    decreases options.len(),
{
    if options.len() == 0 {
        options
    } else {
        inserted(in_order(options.drop_last()), options.last())
    }
}

proof fn lemma_inserted_at(options: Seq<OptionView>, option: OptionView, at: int)
    requires
        0 <= at <= options.len(),
        at > 0 ==> options[at - 1].0 <= option.0,
        forall|k: int| at <= k < options.len() ==> (#[trigger] options[k]).0 > option.0,
    ensures
        options.insert(at, option) == inserted(options, option),
    decreases options.len(),
{
    if at == options.len() {
        assert(options.insert(at, option) =~= options.push(option));
    } else {
        lemma_inserted_at(options.drop_last(), option, at);
        assert(options.insert(at, option) =~= options.drop_last().insert(at, option).push(
            options.last(),
        ));
    }
}

proof fn lemma_inserted_ordered(options: Seq<OptionView>, option: OptionView)
    requires
        is_ordered(options),
    ensures
        is_ordered(inserted(options, option)),
        inserted(options, option).len() == options.len() + 1,
        inserted(options, option).last() == option || (options.len() > 0 && inserted(
            options,
            option,
        ).last() == options.last()),
    decreases options.len(),
{
    if !(options.len() == 0 || options.last().0 <= option.0) {
        lemma_inserted_ordered(options.drop_last(), option);
        let shorter = inserted(options.drop_last(), option);
        assert(shorter.last().0 <= options.last().0);
        assert forall|i: int, j: int| 0 <= i <= j < shorter.push(options.last()).len() implies (
        #[trigger] shorter.push(options.last())[i]).0 <= (#[trigger] shorter.push(
            options.last(),
        )[j]).0 by {
            if j == shorter.len() && i < j {
                assert(shorter[i].0 <= shorter[shorter.len() - 1].0);
            }
        }
    }
}

proof fn lemma_inserted_numbered(options: Seq<OptionView>, option: OptionView, number: u16)
    ensures
        numbered(inserted(options, option), number) == numbered(options.push(option), number),
    decreases options.len(),
{
    if !(options.len() == 0 || options.last().0 <= option.0) {
        let last = options.last();
        let shorter = options.drop_last();
        lemma_inserted_numbered(shorter, option, number);
        reveal_with_fuel(Seq::filter, 3);
        assert(inserted(shorter, option).push(last).drop_last() =~= inserted(shorter, option));
        assert(options.push(option).drop_last() =~= options);
        assert(shorter.push(option).drop_last() =~= shorter);
    }
}

proof fn lemma_push_members(options: Seq<OptionView>, option: OptionView, other: OptionView)
    ensures
        options.push(option).contains(other) <==> options.contains(other) || other == option,
{
    let more = options.push(option);
    if options.contains(other) {
        let i = choose|i: int| 0 <= i < options.len() && options[i] == other;
        assert(more[i] == other);
    }
    assert(more[options.len() as int] == option);
    if more.contains(other) {
        let i = choose|i: int| 0 <= i < more.len() && more[i] == other;
        if i < options.len() {
            assert(options[i] == other);
        }
    }
}

proof fn lemma_inserted_members(options: Seq<OptionView>, option: OptionView, other: OptionView)
    ensures
        inserted(options, option).contains(other) <==> options.contains(other) || other == option,
    decreases options.len(),
{
    if options.len() == 0 || options.last().0 <= option.0 {
        lemma_push_members(options, option, other);
    } else {
        lemma_inserted_members(options.drop_last(), option, other);
        lemma_push_members(inserted(options.drop_last(), option), options.last(), other);
        lemma_push_members(options.drop_last(), options.last(), other);
        assert(options.drop_last().push(options.last()) =~= options);
    }
}

/// Ordering loses no option and adds none.
pub proof fn order_keeps_members(options: Seq<OptionView>, other: OptionView)
    ensures
        in_order(options).contains(other) <==> options.contains(other),
    decreases options.len(),
{
    if options.len() > 0 {
        order_keeps_members(options.drop_last(), other);
        lemma_inserted_members(in_order(options.drop_last()), options.last(), other);
        lemma_push_members(options.drop_last(), options.last(), other);
        assert(options.drop_last().push(options.last()) =~= options);
    }
}

/// The order in which options are sent is by number.
pub proof fn order_is_by_number(options: Seq<OptionView>)
    ensures
        is_ordered(in_order(options)),
        in_order(options).len() == options.len(),
    decreases options.len(),
{
    if options.len() > 0 {
        order_is_by_number(options.drop_last());
        lemma_inserted_ordered(in_order(options.drop_last()), options.last());
    }
}

/// Ordering keeps the options of each number, and the order among them.
pub proof fn order_keeps_each_number(options: Seq<OptionView>, number: u16)
    ensures
        numbered(in_order(options), number) == numbered(options, number),
    decreases options.len(),
{
    if options.len() > 0 {
        order_keeps_each_number(options.drop_last(), number);
        let ordered = in_order(options.drop_last());
        lemma_inserted_numbered(ordered, options.last(), number);
        reveal_with_fuel(Seq::filter, 2);
        assert(ordered.push(options.last()).drop_last() =~= ordered);
    }
}

/// Options that are in order already are sent as they are.
pub proof fn order_keeps_what_is_ordered(options: Seq<OptionView>)
    requires
        is_ordered(options),
    ensures
        in_order(options) == options,
    decreases options.len(),
{
    if options.len() > 0 {
        order_keeps_what_is_ordered(options.drop_last());
        assert(options.drop_last().push(options.last()) =~= options);
        if options.len() > 1 {
            assert(options[options.len() - 2].0 <= options[options.len() - 1].0);
        }
    }
}

proof fn lemma_insertion_place(options: Seq<OptionView>, option: OptionView) -> (at: int)
    ensures
        0 <= at <= options.len(),
        inserted(options, option) == options.insert(at, option),
        at > 0 ==> options[at - 1].0 <= option.0,
        forall|i: int| at <= i < options.len() ==> (#[trigger] options[i]).0 > option.0,
    decreases options.len(),
{
    if options.len() == 0 || options.last().0 <= option.0 {
        assert(options.insert(options.len() as int, option) =~= options.push(option));
        options.len() as int
    } else {
        let at = lemma_insertion_place(options.drop_last(), option);
        assert forall|i: int| at <= i < options.len() implies (#[trigger] options[i]).0
            > option.0 by {
            if i < options.len() - 1 {
                assert(options.drop_last()[i] == options[i]);
            }
        }
        lemma_inserted_at(options, option, at);
        at
    }
}

/// Which option is sent at which place: `from[i]` is the place, among the
/// options as given, of the one that is sent at `i`. Every option is sent once;
/// smaller numbers go first, and among equal ones the one given first.
pub proof fn sending_order(options: Seq<OptionView>) -> (from: Seq<int>)
    ensures
        in_order(options).len() == options.len(),
        from.len() == options.len(),
        forall|i: int|
            0 <= i < from.len() ==> 0 <= #[trigger] from[i] < options.len() && in_order(options)[i]
                == options[from[i]],
        forall|i: int, j: int|
            0 <= i < j < from.len() ==> {
                let (one, other) = (options[#[trigger] from[i]], options[#[trigger] from[j]]);
                one.0 < other.0 || (one.0 == other.0 && from[i] < from[j])
            },
    decreases options.len(),
{
    if options.len() == 0 {
        Seq::empty()
    } else {
        let fewer = options.drop_last();
        let before = sending_order(fewer);
        let sent = in_order(fewer);
        let option = options.last();
        let at = lemma_insertion_place(sent, option);
        let last = options.len() - 1;
        let from = before.insert(at, last);
        order_is_by_number(fewer);
        assert forall|i: int| 0 <= i < from.len() implies 0 <= #[trigger] from[i] < options.len()
            && in_order(options)[i] == options[from[i]] by {
            if i < at {
                assert(from[i] == before[i]);
            } else if i > at {
                assert(from[i] == before[i - 1]);
            }
        }
        assert forall|i: int, j: int| 0 <= i < j < from.len() implies {
            let (one, other) = (options[#[trigger] from[i]], options[#[trigger] from[j]]);
            one.0 < other.0 || (one.0 == other.0 && from[i] < from[j])
        } by {
            let k = if i < at {
                i
            } else {
                i - 1
            };
            let l = if j < at {
                j
            } else {
                j - 1
            };
            if i == at {
                assert(from[j] == before[l]);
                assert(sent[l] == fewer[before[l]]);
            } else if j == at {
                assert(from[i] == before[k]);
                assert(sent[k] == fewer[before[k]]);
                assert(sent[k].0 <= sent[at - 1].0);
            } else {
                assert(from[i] == before[k] && from[j] == before[l]);
                assert(fewer[before[k]] == options[before[k]]);
                assert(fewer[before[l]] == options[before[l]]);
            }
        }
        from
    }
}

proof fn lemma_numbered_last(options: Seq<OptionView>)
    requires
        options.len() > 0,
    ensures
        numbered(options, options.last().0).len() > 0,
        numbered(options, options.last().0).last() == options.last(),
{
    reveal_with_fuel(Seq::filter, 1);
}

proof fn lemma_numbered_at_most_last(options: Seq<OptionView>, number: u16)
    requires
        is_ordered(options),
        numbered(options, number).len() > 0,
    ensures
        options.len() > 0,
        number <= options.last().0,
    decreases options.len(),
{
    reveal_with_fuel(Seq::filter, 1);
    if options.len() > 0 && options.last().0 != number {
        lemma_numbered_at_most_last(options.drop_last(), number);
        assert(options[options.len() - 2].0 <= options[options.len() - 1].0);
    }
}

proof fn lemma_ordered_determined(one: Seq<OptionView>, other: Seq<OptionView>)
    requires
        is_ordered(one),
        is_ordered(other),
        forall|n: u16| #[trigger] numbered(one, n) == numbered(other, n),
    ensures
        one == other,
    decreases one.len(),
{
    if one.len() == 0 {
        if other.len() > 0 {
            lemma_numbered_last(other);
            assert(numbered(one, other.last().0) == numbered(other, other.last().0));
        }
        assert(one =~= other);
    } else {
        let n = one.last().0;
        lemma_numbered_last(one);
        assert(numbered(one, n) == numbered(other, n));
        lemma_numbered_at_most_last(other, n);
        lemma_numbered_last(other);
        assert(numbered(one, other.last().0) == numbered(other, other.last().0));
        lemma_numbered_at_most_last(one, other.last().0);
        assert(one.last() == other.last());
        assert forall|m: u16| #[trigger]
            numbered(one.drop_last(), m) == numbered(other.drop_last(), m) by {
            assert(numbered(one, m) == numbered(other, m));
            reveal_with_fuel(Seq::filter, 1);
            if m == n {
                assert(numbered(one, m).drop_last() =~= numbered(one.drop_last(), m));
                assert(numbered(other, m).drop_last() =~= numbered(other.drop_last(), m));
            }
        }
        lemma_ordered_determined(one.drop_last(), other.drop_last());
        assert(one =~= one.drop_last().push(one.last()));
        assert(other =~= other.drop_last().push(other.last()));
    }
}

/// There is one way only to order options by number without losing any,
/// adding any, or swapping two with the same number.
pub proof fn order_is_the_only_one(options: Seq<OptionView>, other: Seq<OptionView>)
    requires
        is_ordered(other),
        forall|n: u16| #[trigger] numbered(other, n) == numbered(options, n),
    ensures
        other == in_order(options),
{
    order_is_by_number(options);
    assert forall|n: u16| #[trigger] numbered(other, n) == numbered(in_order(options), n) by {
        order_keeps_each_number(options, n);
    }
    lemma_ordered_determined(other, in_order(options));
}

/// The options in the order in which they are sent.
pub(crate) fn ordered(options: &Vec<(u16, Vec<u8>)>) -> (out: Vec<&(u16, Vec<u8>)>)
    ensures
        referred_views(out@) == in_order(option_views(options@)),
{
    let mut out: Vec<&(u16, Vec<u8>)> = Vec::new();
    let mut i: usize = 0;
    proof {
        assert(option_views(options@).take(0) =~= Seq::empty());
        assert(referred_views(out@) =~= Seq::empty());
    }
    while i < options.len()
        invariant
            i <= options.len(),
            referred_views(out@) == in_order(option_views(options@).take(i as int)),
        decreases options.len() - i,
    {
        let option: &(u16, Vec<u8>) = &options[i];
        let mut at: usize = out.len();
        while at > 0 && out[at - 1].0 > option.0
            invariant
                at <= out.len(),
                forall|k: int| at <= k < out.len() ==> (#[trigger] out@[k]).0 > option.0,
            decreases at,
        {
            at = at - 1;
        }
        proof {
            let before = referred_views(out@);
            assert forall|k: int| at <= k < before.len() implies (#[trigger] before[k]).0
                > option.0 by {
                assert(before[k].0 == out@[k].0);
            }
            lemma_inserted_at(before, option_view(*option), at as int);
            assert(referred_views(out@.insert(at as int, option)) =~= before.insert(
                at as int,
                option_view(*option),
            ));
            let next = option_views(options@).take(i + 1);
            assert(next.drop_last() =~= option_views(options@).take(i as int));
            assert(next.last() == option_view(*option));
        }
        out.insert(at, option);
        i = i + 1;
    }
    assert(option_views(options@).take(i as int) =~= option_views(options@));
    out
}

} // verus!
