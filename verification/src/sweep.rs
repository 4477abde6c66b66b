//! Working through a sequence until something fails.
//!
//! Masking takes the entries of a table, the items of an array and the
//! documents of a set one after the other, and gives up at the first that
//! fails. What was reached by then stays as masking left it; what follows is
//! not touched.

use vstd::prelude::*;
use crate::document::{field, lemma_with_field, with_field, Tree};
use crate::error::{lifted, FaultView, SegmentView};

verus! {

/// What became of a value, and the fault at which work on it stopped, if
/// it did.
pub struct Step<T> {
    pub value: T,
    pub error: Option<FaultView>,
}

/// A step that ends with `value` and without a fault.
pub open spec fn done<T>(value: T) -> Step<T> {
    Step { value, error: None }
}

impl<T> Step<T> {
    /// This step and then `next`, unless this one failed.
    pub open spec fn and_then(self, next: spec_fn(T) -> Step<T>) -> Step<T> {
        if self.error is Some {
            self
        } else {
            next(self.value)
        }
    }
}

/// `inner` taken on what `tree` holds under `key`; nothing where it holds
/// nothing there. A fault of `inner` lies under `key`.
pub open spec fn in_field(tree: Tree, key: Seq<char>, inner: spec_fn(Tree) -> Step<Tree>) -> Step<
    Tree,
> {
    match field(tree, key) {
        Some(held) => Step {
            value: with_field(tree, key, inner(held).value),
            error: lifted(inner(held).error, SegmentView::Key(key)),
        },
        None => done(tree),
    }
}

/// Whether `at` is the first place of `items` at which `step` fails; `at` is
/// the length of `items` where it fails nowhere.
pub open spec fn fails_first_at<T>(items: Seq<T>, step: spec_fn(T) -> Step<T>, at: int) -> bool {
    &&& 0 <= at <= items.len()
    &&& forall|i: int| 0 <= i < at ==> (#[trigger] step(items[i])).error is None
    &&& at < items.len() ==> step(items[at]).error is Some
}

/// The first place of `items` at which `step` fails, or the length of
/// `items`.
pub open spec fn first_failure<T>(items: Seq<T>, step: spec_fn(T) -> Step<T>) -> int {
    choose|at: int| fails_first_at(items, step, at)
}

/// `step` taken on each of `items` up to and including the first on which it
/// fails, with the fault of that one.
pub open spec fn sweep<T>(items: Seq<T>, step: spec_fn(T) -> Step<T>) -> Step<Seq<T>> {
    let stop = first_failure(items, step);
    Step {
        value: Seq::new(
            items.len(),
            |i: int|
                if i <= stop {
                    step(items[i]).value
                } else {
                    items[i]
                },
        ),
        error: if stop < items.len() {
            step(items[stop]).error
        } else {
            None
        },
    }
}

/// The table of `entries` swept. A fault lies under the key of the entry
/// at which the sweep stops.
pub open spec fn sweep_table(
    entries: Seq<(Seq<char>, Tree)>,
    step: spec_fn((Seq<char>, Tree)) -> Step<(Seq<char>, Tree)>,
) -> Step<Tree> {
    Step {
        value: Tree::Table(sweep(entries, step).value),
        error: lifted(
            sweep(entries, step).error,
            SegmentView::Key(entries[first_failure(entries, step)].0),
        ),
    }
}

/// The array of `items` swept. A fault lies at the place of the item at
/// which the sweep stops.
pub open spec fn sweep_array(items: Seq<Tree>, step: spec_fn(Tree) -> Step<Tree>) -> Step<Tree> {
    Step {
        value: Tree::Array(sweep(items, step).value),
        error: lifted(sweep(items, step).error, SegmentView::Index(first_failure(items, step))),
    }
}

/// There is exactly one first failure.
pub proof fn lemma_first_failure<T>(items: Seq<T>, step: spec_fn(T) -> Step<T>)
    ensures
        fails_first_at(items, step, first_failure(items, step)),
        forall|at: int| fails_first_at(items, step, at) ==> at == first_failure(items, step),
{
    lemma_failure_exists(items, step, 0);
    let chosen = first_failure(items, step);
    assert forall|at: int| fails_first_at(items, step, at) implies at == chosen by {
        if at < chosen {
            assert(step(items[at]).error is None);
        } else if chosen < at {
            assert(step(items[chosen]).error is None);
        }
    }
}

proof fn lemma_failure_exists<T>(items: Seq<T>, step: spec_fn(T) -> Step<T>, from: int)
    requires
        0 <= from <= items.len(),
        forall|i: int| 0 <= i < from ==> (#[trigger] step(items[i])).error is None,
    ensures
        exists|at: int| fails_first_at(items, step, at),
    decreases items.len() - from,
{
    if from < items.len() && step(items[from]).error is None {
        lemma_failure_exists(items, step, from + 1);
    } else {
        assert(fails_first_at(items, step, from));
    }
}

/// A sweep keeps the length of the sequence, and fails exactly where one of
/// its steps fails.
pub proof fn lemma_sweep<T>(items: Seq<T>, step: spec_fn(T) -> Step<T>)
    ensures
        sweep(items, step).value.len() == items.len(),
        sweep(items, step).error is None <==> forall|i: int|
            0 <= i < items.len() ==> (#[trigger] step(items[i])).error is None,
        sweep(items, step).error is None ==> forall|i: int|
            0 <= i < items.len() ==> sweep(items, step).value[i] == step(items[i]).value,
{
    lemma_first_failure(items, step);
}

/// A second sweep changes nothing where its step changes nothing that the
/// step of the first has left, and the first did not fail.
pub proof fn lemma_sweep_again<T>(
    items: Seq<T>,
    first: spec_fn(T) -> Step<T>,
    second: spec_fn(T) -> Step<T>,
)
    requires
        sweep(items, first).error is None,
        forall|i: int|
            0 <= i < items.len() && first(items[i]).error is None ==> (#[trigger] second(
                first(items[i]).value,
            )).value == first(items[i]).value,
    ensures
        sweep(sweep(items, first).value, second).value == sweep(items, first).value,
        (forall|i: int|
            0 <= i < items.len() && first(items[i]).error is None ==> (#[trigger] second(
                first(items[i]).value,
            )).error is None) ==> sweep(sweep(items, first).value, second).error is None,
{
    lemma_first_failure(items, first);
    let once = sweep(items, first).value;
    lemma_first_failure(once, second);
    assert forall|i: int| 0 <= i < items.len() implies once[i] == first(items[i]).value by {}
    assert forall|i: int| 0 <= i < items.len() implies (#[trigger] second(once[i])).value
        == once[i] by {
        assert(first(items[i]).error is None);
        assert(second(first(items[i]).value).value == first(items[i]).value);
    }
    assert(sweep(once, second).value =~= once);
    if forall|i: int|
        0 <= i < items.len() && first(items[i]).error is None ==> (#[trigger] second(
            first(items[i]).value,
        )).error is None {
        let stop = first_failure(once, second);
        if stop < once.len() {
            assert(first(items[stop]).error is None);
            assert(second(first(items[stop]).value).error is None);
        }
    }
}

/// A second step into a field changes nothing where it changes nothing
/// that the first has left there.
pub proof fn lemma_in_field_again(
    tree: Tree,
    key: Seq<char>,
    first: spec_fn(Tree) -> Step<Tree>,
    second: spec_fn(Tree) -> Step<Tree>,
)
    requires
        in_field(tree, key, first).error is None,
        field(tree, key) is Some && first(field(tree, key)->0).error is None ==> second(
            first(field(tree, key)->0).value,
        ).value == first(field(tree, key)->0).value,
    ensures
        in_field(in_field(tree, key, first).value, key, second).value == in_field(
            tree,
            key,
            first,
        ).value,
        in_field(in_field(tree, key, first).value, key, second).error is None <==> (field(
            tree,
            key,
        ) is Some ==> second(first(field(tree, key)->0).value).error is None),
{
    match field(tree, key) {
        Some(held) => {
            lemma_with_field(tree, key, first(held).value);
            lemma_with_field(in_field(tree, key, first).value, key, first(held).value);
        },
        None => {},
    }
}

/// A step into a field leaves every other field as it is.
pub proof fn lemma_in_field_elsewhere(
    tree: Tree,
    key: Seq<char>,
    inner: spec_fn(Tree) -> Step<Tree>,
    other: Seq<char>,
)
    requires
        other != key,
    ensures
        field(in_field(tree, key, inner).value, other) == field(tree, other),
{
    match field(tree, key) {
        Some(held) => {
            lemma_with_field(tree, key, inner(held).value);
        },
        None => {},
    }
}

/// A field of a tree and the step to take on what it holds.
pub struct Stage {
    pub key: Seq<char>,
    pub inner: spec_fn(Tree) -> Step<Tree>,
}

/// The stages taken on `tree` one after the other, up to and including
/// the first that fails.
pub open spec fn chain(tree: Tree, stages: Seq<Stage>) -> Step<Tree>
    decreases stages.len(),
{
    if stages.len() == 0 {
        done(tree)
    } else {
        let first = in_field(tree, stages[0].key, stages[0].inner);
        if first.error is Some {
            first
        } else {
            chain(first.value, stages.drop_first())
        }
    }
}

/// Whether no two of `stages` work on the same field.
pub open spec fn distinct_keys(stages: Seq<Stage>) -> bool {
    forall|i: int, j: int|
        0 <= i < j < stages.len() ==> (#[trigger] stages[i]).key != (#[trigger] stages[j]).key
}

/// A chain leaves every field on which none of its stages works as it is.
pub proof fn lemma_chain_elsewhere(tree: Tree, stages: Seq<Stage>, other: Seq<char>)
    requires
        forall|i: int| 0 <= i < stages.len() ==> (#[trigger] stages[i]).key != other,
    ensures
        field(chain(tree, stages).value, other) == field(tree, other),
    decreases stages.len(),
{
    if stages.len() > 0 {
        let first = in_field(tree, stages[0].key, stages[0].inner);
        lemma_in_field_elsewhere(tree, stages[0].key, stages[0].inner, other);
        if first.error is None {
            let rest = stages.drop_first();
            assert forall|i: int| 0 <= i < rest.len() implies (#[trigger] rest[i]).key != other by {
                assert(rest[i] == stages[i + 1]);
            }
            lemma_chain_elsewhere(first.value, rest, other);
        }
    }
}

/// A second chain on the same fields changes nothing where each of its
/// stages changes nothing that the stage before it on that field has left,
/// and the first chain did not fail.
pub proof fn lemma_chain_again(tree: Tree, firsts: Seq<Stage>, seconds: Seq<Stage>)
    requires
        firsts.len() == seconds.len(),
        forall|i: int| 0 <= i < firsts.len() ==> (#[trigger] firsts[i]).key == seconds[i].key,
        distinct_keys(firsts),
        chain(tree, firsts).error is None,
        forall|i: int|
            0 <= i < firsts.len() && field(tree, (#[trigger] firsts[i]).key) is Some && (
            firsts[i].inner)(field(tree, firsts[i].key)->0).error is None ==> (seconds[i].inner)(
                (firsts[i].inner)(field(tree, firsts[i].key)->0).value,
            ).value == (firsts[i].inner)(field(tree, firsts[i].key)->0).value,
    ensures
        chain(chain(tree, firsts).value, seconds).value == chain(tree, firsts).value,
        (forall|i: int|
            0 <= i < firsts.len() && field(tree, (#[trigger] firsts[i]).key) is Some && (
            firsts[i].inner)(field(tree, firsts[i].key)->0).error is None ==> (seconds[i].inner)(
                (firsts[i].inner)(field(tree, firsts[i].key)->0).value,
            ).error is None) ==> chain(chain(tree, firsts).value, seconds).error is None,
    decreases firsts.len(),
{
    if firsts.len() > 0 {
        let key = firsts[0].key;
        let once = in_field(tree, key, firsts[0].inner);
        let rest = firsts.drop_first();
        let rest_again = seconds.drop_first();
        let end = chain(once.value, rest).value;
        assert(chain(tree, firsts) == chain(once.value, rest));
        assert forall|i: int| 0 <= i < rest.len() implies (#[trigger] rest[i]).key
            == rest_again[i].key by {
            assert(rest[i] == firsts[i + 1]);
            assert(rest_again[i] == seconds[i + 1]);
        }
        assert(distinct_keys(rest)) by {
            assert forall|i: int, j: int| 0 <= i < j < rest.len() implies (#[trigger] rest[i]).key
                != (#[trigger] rest[j]).key by {
                assert(rest[i] == firsts[i + 1]);
                assert(rest[j] == firsts[j + 1]);
            }
        }
        assert forall|i: int| 0 <= i < rest.len() implies (#[trigger] rest[i]).key != key by {
            assert(rest[i] == firsts[i + 1]);
        }
        assert forall|i: int| 0 <= i < rest.len() implies field(once.value, (#[trigger] rest[i]).key)
            == field(tree, firsts[i + 1].key) by {
            assert(rest[i] == firsts[i + 1]);
            lemma_in_field_elsewhere(tree, key, firsts[0].inner, rest[i].key);
        }
        assert forall|i: int|
            0 <= i < rest.len() && field(once.value, (#[trigger] rest[i]).key) is Some && (
            rest[i].inner)(field(once.value, rest[i].key)->0).error is None implies (
        rest_again[i].inner)((rest[i].inner)(field(once.value, rest[i].key)->0).value).value == (
        rest[i].inner)(field(once.value, rest[i].key)->0).value by {
            assert(rest[i] == firsts[i + 1]);
            assert(rest_again[i] == seconds[i + 1]);
            assert(field(tree, firsts[i + 1].key) is Some);
        }
        lemma_chain_again(once.value, rest, rest_again);
        lemma_chain_elsewhere(once.value, rest, key);
        lemma_in_field_again(tree, key, firsts[0].inner, seconds[0].inner);
        // What the first stage left under its key is still there at the end.
        match field(tree, key) {
            Some(held) => {
                lemma_with_field(tree, key, (firsts[0].inner)(held).value);
                lemma_with_field(end, key, (firsts[0].inner)(held).value);
            },
            None => {
                lemma_with_field(tree, key, tree);
            },
        }
        let again = in_field(end, seconds[0].key, seconds[0].inner);
        assert(again.value == end);
        if forall|i: int|
            0 <= i < firsts.len() && field(tree, (#[trigger] firsts[i]).key) is Some && (
            firsts[i].inner)(field(tree, firsts[i].key)->0).error is None ==> (seconds[i].inner)(
                (firsts[i].inner)(field(tree, firsts[i].key)->0).value,
            ).error is None {
            assert(again.error is None) by {
                if field(tree, key) is Some {
                    assert(firsts[0].key == key);
                }
            }
            assert forall|i: int|
                0 <= i < rest.len() && field(once.value, (#[trigger] rest[i]).key) is Some && (
                rest[i].inner)(field(once.value, rest[i].key)->0).error is None implies (
            rest_again[i].inner)((rest[i].inner)(field(once.value, rest[i].key)->0).value).error
                is None by {
                assert(rest[i] == firsts[i + 1]);
                assert(rest_again[i] == seconds[i + 1]);
                assert(field(tree, firsts[i + 1].key) is Some);
            }
        }
    }
}

/// A sweep leaves each item as it was or as its step makes it.
pub proof fn lemma_sweep_item<T>(items: Seq<T>, step: spec_fn(T) -> Step<T>, at: int)
    requires
        0 <= at < items.len(),
    ensures
        sweep(items, step).value.len() == items.len(),
        sweep(items, step).value[at] == items[at] || sweep(items, step).value[at] == step(
            items[at],
        ).value,
{
}

/// What a tree holds under the key of a stage after a chain: what it held
/// there before, or what the stage made of that.
pub proof fn lemma_chain_field(tree: Tree, stages: Seq<Stage>, at: int)
    requires
        0 <= at < stages.len(),
        distinct_keys(stages),
    ensures
        field(tree, stages[at].key) is None ==> field(chain(tree, stages).value, stages[at].key)
            is None,
        field(tree, stages[at].key) is Some ==> {
            let held = field(tree, stages[at].key)->0;
            let after = field(chain(tree, stages).value, stages[at].key);
            after == Some(held) || after == Some((stages[at].inner)(held).value)
        },
    decreases stages.len(),
{
    let key = stages[at].key;
    let once = in_field(tree, stages[0].key, stages[0].inner);
    let rest = stages.drop_first();
    assert(distinct_keys(rest)) by {
        assert forall|i: int, j: int| 0 <= i < j < rest.len() implies (#[trigger] rest[i]).key != (
        #[trigger] rest[j]).key by {
            assert(rest[i] == stages[i + 1]);
            assert(rest[j] == stages[j + 1]);
        }
    }
    if at == 0 {
        match field(tree, key) {
            Some(held) => {
                lemma_with_field(tree, key, (stages[0].inner)(held).value);
            },
            None => {},
        }
        if once.error is None {
            assert forall|i: int| 0 <= i < rest.len() implies (#[trigger] rest[i]).key != key by {
                assert(rest[i] == stages[i + 1]);
            }
            lemma_chain_elsewhere(once.value, rest, key);
        }
    } else {
        lemma_in_field_elsewhere(tree, stages[0].key, stages[0].inner, key);
        if once.error is None {
            assert(rest[at - 1] == stages[at]);
            lemma_chain_field(once.value, rest, at - 1);
        }
    }
}

/// Where a chain does not fail, none of its stages fails, and the tree
/// holds under the key of each stage what that stage made of what was
/// there.
pub proof fn lemma_chain_done(tree: Tree, stages: Seq<Stage>, at: int)
    requires
        0 <= at < stages.len(),
        distinct_keys(stages),
        chain(tree, stages).error is None,
        field(tree, stages[at].key) is Some,
    ensures
        (stages[at].inner)(field(tree, stages[at].key)->0).error is None,
        field(chain(tree, stages).value, stages[at].key) == Some(
            (stages[at].inner)(field(tree, stages[at].key)->0).value,
        ),
    decreases stages.len(),
{
    let key = stages[at].key;
    let once = in_field(tree, stages[0].key, stages[0].inner);
    let rest = stages.drop_first();
    assert(distinct_keys(rest)) by {
        assert forall|i: int, j: int| 0 <= i < j < rest.len() implies (#[trigger] rest[i]).key != (
        #[trigger] rest[j]).key by {
            assert(rest[i] == stages[i + 1]);
            assert(rest[j] == stages[j + 1]);
        }
    }
    if at == 0 {
        lemma_with_field(tree, key, (stages[0].inner)(field(tree, key)->0).value);
        assert forall|i: int| 0 <= i < rest.len() implies (#[trigger] rest[i]).key != key by {
            assert(rest[i] == stages[i + 1]);
        }
        lemma_chain_elsewhere(once.value, rest, key);
    } else {
        lemma_in_field_elsewhere(tree, stages[0].key, stages[0].inner, key);
        assert(rest[at - 1] == stages[at]);
        lemma_chain_done(once.value, rest, at - 1);
    }
}

} // verus!
